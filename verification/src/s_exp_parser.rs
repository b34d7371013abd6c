//! The generic ordered tree of tagged elements, its parser and printer, and
//! the recursive query operations over it.

use crate::value::Value;
use crate::value::ValueV;
use crate::value::is_space_char;
use crate::value::turn_to_value_spec;
use crate::value::value_chars;
use crate::value::chars_to_value;
use crate::value::is_space;
use crate::value::value_as_string;
use crate::value::str_to_chars;
use crate::value::chars_to_string;
use vstd::prelude::*;

verus! {

/// One of two things; the elements of a tree are either values or subtrees.
#[derive(Debug, Clone, PartialEq)]
pub enum Either<A, B> {
    This(A),
    That(B),
}

/// One element of a tree: a scalar value or an owned subtree.
pub type Element = Either<Value, Box<SExpr>>;

/// An ordered tree of tagged elements; the first element is conventionally
/// the tag naming the tree's role.
#[derive(Debug)]
pub struct SExpr {
    pub content: Vec<Element>,
}

/// The mathematical shape of an [`Element`].
pub enum ElemV {
    V(ValueV),
    T(TreeV),
}

/// The mathematical shape of an [`SExpr`]: an ordered sequence of element
/// shapes.
pub struct TreeV {
    pub elems: Seq<ElemV>,
}

pub open spec fn view_elem(e: Element) -> ElemV
    decreases e,
{
    match e {
        Either::This(v) => ElemV::V(v@),
        Either::That(b) => ElemV::T(view_tree(*b)),
    }
}

pub open spec fn view_tree(t: SExpr) -> TreeV
    decreases t,
{
    TreeV {
        elems: Seq::new(
            t.content@.len(),
            |i: int|
                if 0 <= i < t.content@.len() {
                    view_elem(t.content[i])
                } else {
                    ElemV::V(ValueV::Absent)
                },
        ),
    }
}

impl View for SExpr {
    type V = TreeV;

    open spec fn view(&self) -> TreeV {
        view_tree(*self)
    }
}

fn clone_elem(e: &Element) -> (r: Element)
    ensures
        view_elem(r) == view_elem(*e),
    decreases *e,
{
    match e {
        Either::This(v) => Either::This(v.clone()),
        Either::That(b) => Either::That(Box::new(clone_tree(b))),
    }
}

fn clone_tree(t: &SExpr) -> (r: SExpr)
    ensures
        r@ == t@,
    decreases *t,
{
    let mut out: Vec<Element> = Vec::new();
    let mut i: usize = 0;
    while i < t.content.len()
        invariant
            i <= t.content@.len(),
            out@.len() == i,
            forall|j: int| 0 <= j < i ==> view_elem(#[trigger] out@[j]) == view_elem(t.content@[j]),
        decreases t.content@.len() - i,
    {
        out.push(clone_elem(&t.content[i]));
        i += 1;
    }
    let r = SExpr { content: out };
    proof {
        assert(r@.elems =~= t@.elems);
    }
    r
}

impl Clone for SExpr {
    /// A deep copy with the same mathematical shape.
    fn clone(&self) -> (r: SExpr)
        ensures
            r@ == self@,
    {
        clone_tree(self)
    }
}

fn eq_elem(a: &Element, b: &Element) -> (r: bool)
    ensures
        r == (view_elem(*a) == view_elem(*b)),
    decreases *a,
{
    match (a, b) {
        (Either::This(x), Either::That(_)) => false,
        (Either::That(_), Either::This(y)) => false,
        (Either::This(x), Either::This(y)) => x.eq_value(y),
        (Either::That(x), Either::That(y)) => eq_tree(x, y),
    }
}

/// Structural equality of two trees, decided executably.
pub fn eq_tree(a: &SExpr, b: &SExpr) -> (r: bool)
    ensures
        r == (a@ == b@),
    decreases *a,
{
    if a.content.len() != b.content.len() {
        proof {
            assert(a@.elems.len() != b@.elems.len());
        }
        return false;
    }
    let n = a.content.len();
    let mut i: usize = 0;
    while i < n
        invariant
            i <= n,
            n == a.content@.len() == b.content@.len(),
            forall|j: int| 0 <= j < i ==> view_elem(#[trigger] a.content@[j]) == view_elem(
                b.content@[j],
            ),
        decreases n - i,
    {
        if !eq_elem(&a.content[i], &b.content[i]) {
            proof {
                assert(a@.elems[i as int] != b@.elems[i as int]);
            }
            return false;
        }
        i += 1;
    }
    proof {
        assert(a@.elems =~= b@.elems);
    }
    true
}

impl PartialEq for SExpr {
    fn eq(&self, other: &SExpr) -> bool {
        eq_tree(self, other)
    }
}

impl vstd::std_specs::cmp::PartialEqSpecImpl for SExpr {
    open spec fn obeys_eq_spec() -> bool {
        true
    }

    open spec fn eq_spec(&self, other: &SExpr) -> bool {
        self@ == other@
    }
}

// ---------------------------------------------------------------------------
// Tokenizing: raw text to a flat stream of values and delimiters.
// ---------------------------------------------------------------------------

/// A parenthesis delimiter in the flat token stream.
#[derive(Debug, Copy, Clone, PartialEq, Eq, Structural)]
pub enum Delimeter {
    Open,
    Close,
}

/// The flat stream the first parser pass produces: values and delimiters.
pub type HalfParsed = Vec<Either<Value, Delimeter>>;

/// The mathematical shape of one token.
pub enum TokenV {
    V(ValueV),
    Open,
    Close,
}

pub open spec fn view_token(t: Either<Value, Delimeter>) -> TokenV {
    match t {
        Either::This(v) => TokenV::V(v@),
        Either::That(Delimeter::Open) => TokenV::Open,
        Either::That(Delimeter::Close) => TokenV::Close,
    }
}

pub open spec fn view_tokens(ts: Seq<Either<Value, Delimeter>>) -> Seq<TokenV> {
    Seq::new(ts.len(), |i: int| view_token(ts[i]))
}

/// The tokenizer's running state: whether it stands inside a string literal,
/// the characters of the token being gathered, and the tokens already out.
pub struct TokSt {
    pub in_string: bool,
    pub chunk: Seq<char>,
    pub out: Seq<TokenV>,
}

pub open spec fn tok_init() -> TokSt {
    TokSt { in_string: false, chunk: Seq::empty(), out: Seq::empty() }
}

/// One character of the scan. A quote toggles string mode and is kept;
/// inside a string everything is kept; outside, whitespace ends a non-empty
/// token and parentheses end the token and emit a delimiter.
pub open spec fn tok_step(st: TokSt, c: char) -> TokSt {
    let in_s = if c == '"' {
        !st.in_string
    } else {
        st.in_string
    };
    if in_s {
        TokSt { in_string: in_s, chunk: st.chunk.push(c), out: st.out }
    } else if is_space_char(c) {
        if st.chunk.len() > 0 {
            TokSt {
                in_string: in_s,
                chunk: Seq::empty(),
                out: st.out.push(TokenV::V(turn_to_value_spec(st.chunk))),
            }
        } else {
            TokSt { in_string: in_s, chunk: st.chunk, out: st.out }
        }
    } else if c == '(' {
        TokSt {
            in_string: in_s,
            chunk: Seq::empty(),
            out: st.out.push(TokenV::V(turn_to_value_spec(st.chunk))).push(TokenV::Open),
        }
    } else if c == ')' {
        TokSt {
            in_string: in_s,
            chunk: Seq::empty(),
            out: st.out.push(TokenV::V(turn_to_value_spec(st.chunk))).push(TokenV::Close),
        }
    } else {
        TokSt { in_string: in_s, chunk: st.chunk.push(c), out: st.out }
    }
}

pub open spec fn tok_fold(s: Seq<char>) -> TokSt
    decreases s.len(),
{
    if s.len() == 0 {
        tok_init()
    } else {
        tok_step(tok_fold(s.drop_last()), s.last())
    }
}

/// The token stream of a whole text: the scan of every character, with a
/// last non-empty token flushed at the end.
pub open spec fn tokenize(s: Seq<char>) -> Seq<TokenV> {
    let st = tok_fold(s);
    if st.chunk.len() > 0 {
        st.out.push(TokenV::V(turn_to_value_spec(st.chunk)))
    } else {
        st.out
    }
}

/// The first parser pass: scans the text left to right, keeping string
/// literals whole, and yields the flat stream of values and delimiters.
pub fn tokenize_text(s: &str) -> (r: HalfParsed)
    ensures
        view_tokens(r@) == tokenize(s@),
{
    let v = str_to_chars(s);
    let ghost whole = v@;
    let mut out: HalfParsed = Vec::new();
    let mut chunk: Vec<char> = Vec::new();
    let mut in_string: bool = false;
    let mut i: usize = 0;
    proof {
        assert(whole.take(0) =~= Seq::<char>::empty());
        assert(view_tokens(out@) =~= tok_fold(whole.take(0)).out);
    }
    while i < v.len()
        invariant
            i <= whole.len(),
            v@ == whole,
            in_string == tok_fold(whole.take(i as int)).in_string,
            chunk@ == tok_fold(whole.take(i as int)).chunk,
            view_tokens(out@) == tok_fold(whole.take(i as int)).out,
        decreases whole.len() - i,
    {
        let c = v[i];
        let ghost st = tok_fold(whole.take(i as int));
        proof {
            assert(whole.take(i + 1).drop_last() =~= whole.take(i as int));
            assert(whole.take(i + 1).last() == c);
            assert(tok_fold(whole.take(i + 1)) == tok_step(st, c));
        }
        if c == '"' {
            in_string = !in_string;
        }
        if in_string {
            chunk.push(c);
        } else if is_space(c) && chunk.len() > 0 {
            let val = chars_to_value(&chunk);
            out.push(Either::This(val));
            chunk = Vec::new();
            proof {
                assert(view_tokens(out@) =~= tok_fold(whole.take(i + 1)).out);
            }
        } else if is_space(c) {
            // an empty chunk at whitespace: nothing to flush
        } else if c == '(' {
            let val = chars_to_value(&chunk);
            out.push(Either::This(val));
            out.push(Either::That(Delimeter::Open));
            chunk = Vec::new();
            proof {
                assert(view_tokens(out@) =~= tok_fold(whole.take(i + 1)).out);
            }
        } else if c == ')' {
            let val = chars_to_value(&chunk);
            out.push(Either::This(val));
            out.push(Either::That(Delimeter::Close));
            chunk = Vec::new();
            proof {
                assert(view_tokens(out@) =~= tok_fold(whole.take(i + 1)).out);
            }
        } else {
            chunk.push(c);
        }
        i += 1;
    }
    proof {
        assert(whole.take(whole.len() as int) =~= whole);
    }
    if chunk.len() > 0 {
        let val = chars_to_value(&chunk);
        out.push(Either::This(val));
        proof {
            assert(view_tokens(out@) =~= tokenize(whole));
        }
    }
    out
}

// ---------------------------------------------------------------------------
// Merging: the flat token stream to the nested tree.
// ---------------------------------------------------------------------------

/// How a token moves the nesting level.
pub open spec fn tok_delta(t: TokenV) -> int {
    match t {
        TokenV::Open => 1,
        TokenV::Close => -1,
        TokenV::V(_) => 0,
    }
}

/// The first index at or after `j` where the running level, starting from
/// `level`, returns to zero; `toks.len()` if it never does.
pub open spec fn closing_from(toks: Seq<TokenV>, j: int, level: int) -> int
    decreases toks.len() - j,
{
    if j < 0 || j >= toks.len() {
        toks.len() as int
    } else {
        let lv = level + tok_delta(toks[j]);
        if lv == 0 {
            j
        } else {
            closing_from(toks, j + 1, lv)
        }
    }
}

proof fn lemma_closing_bounds(toks: Seq<TokenV>, j: int, level: int)
    requires
        0 <= j <= toks.len(),
    ensures
        j <= closing_from(toks, j, level) <= toks.len(),
    decreases toks.len() - j,
{
    if j < toks.len() {
        let lv = level + tok_delta(toks[j]);
        if lv != 0 {
            lemma_closing_bounds(toks, j + 1, lv);
        }
    }
}

/// The index of the matching close for the opening delimiter at `i`, clamped
/// into `(i, toks.len()]`; unbalanced input runs to the end of the stream.
pub open spec fn closing_of(toks: Seq<TokenV>, i: int) -> int {
    let c = closing_from(toks, i, 0);
    if c < i + 1 {
        i + 1
    } else if c > toks.len() {
        toks.len() as int
    } else {
        c
    }
}

/// The elements produced from the tokens at `i` on: values append (absent
/// ones are dropped), an opening delimiter wraps the span up to its matching
/// close as a child tree, and a stray close is inert.
pub open spec fn merge_from(toks: Seq<TokenV>, i: int) -> Seq<ElemV>
    decreases toks.len(), toks.len() - i,
{
    if i < 0 || i >= toks.len() {
        Seq::empty()
    } else {
        match toks[i] {
            TokenV::V(v) => {
                let rest = merge_from(toks, i + 1);
                if v is Absent {
                    rest
                } else {
                    seq![ElemV::V(v)] + rest
                }
            },
            TokenV::Open => {
                let c = closing_of(toks, i);
                let sub = toks.subrange(i + 1, c);
                seq![ElemV::T(TreeV { elems: merge_from(sub, 0) })] + merge_from(toks, c)
            },
            TokenV::Close => merge_from(toks, i + 1),
        }
    }
}

/// The index of the delimiter closing the opening one at `opening`, found by
/// level counting; the stream's end if the input is unbalanced.
pub fn get_closing_delim(list: &HalfParsed, opening: usize) -> (r: usize)
    requires
        opening < list@.len(),
    ensures
        r as int == closing_from(view_tokens(list@), opening as int, 0),
        opening <= r <= list@.len(),
    decreases list@.len() - opening,
{
    let ghost w = view_tokens(list@);
    let mut level: i128 = 0;
    let mut index = opening;
    while index < list.len()
        invariant
            opening <= index <= list@.len(),
            w == view_tokens(list@),
            -(index as int - opening as int) <= level <= index as int - opening as int,
            closing_from(w, opening as int, 0) == closing_from(w, index as int, level as int),
        decreases list@.len() - index,
    {
        match &list[index] {
            Either::This(_) => {},
            Either::That(Delimeter::Open) => {
                level = level + 1;
            },
            Either::That(Delimeter::Close) => {
                level = level - 1;
            },
        };
        proof {
            assert(w[index as int] == view_token(list@[index as int]));
        }
        if level == 0 {
            proof {
                assert(closing_from(w, index as int, (level - tok_delta(w[index as int])) as int)
                    == index as int);
            }
            return index;
        }
        index += 1;
    }
    index
}

/// The second parser pass: consumes the flat token stream into the nested
/// tree, matching delimiters by depth counting; a stray close is inert and an
/// unmatched open runs to the end of the stream.
pub fn merge_into_exp(leveled_values: HalfParsed) -> (r: SExpr)
    ensures
        r@.elems == merge_from(view_tokens(leveled_values@), 0),
    decreases leveled_values@.len(),
{
    let ghost w = view_tokens(leveled_values@);
    let mut res = SExpr { content: Vec::new() };
    let mut i: usize = 0;
    proof {
        assert(res@.elems =~= Seq::<ElemV>::empty());
    }
    while i < leveled_values.len()
        invariant
            0 <= i <= leveled_values@.len(),
            w == view_tokens(leveled_values@),
            res@.elems + merge_from(w, i as int) =~= merge_from(w, 0),
        decreases leveled_values@.len() - i,
    {
        match &leveled_values[i] {
            Either::This(value) => {
                proof {
                    assert(w[i as int] == view_token(leveled_values@[i as int]));
                }
                if !value.eq_value(&Value::Absent) {
                    res.content.push(Either::This(value.clone()));
                    proof {
                        assert(res@.elems =~= res@.elems.drop_last() + seq![
                            ElemV::V(leveled_values@[i as int]->This_0@),
                        ]);
                        assert(res@.elems.drop_last() + (seq![
                            ElemV::V(leveled_values@[i as int]->This_0@),
                        ] + merge_from(w, i + 1)) =~= res@.elems + merge_from(w, i + 1));
                    }
                }
                i += 1;
            },
            Either::That(Delimeter::Open) => {
                proof {
                    assert(w[i as int] == view_token(leveled_values@[i as int]));
                    lemma_closing_bounds(w, i as int, 0);
                }
                let closing_brace = get_closing_delim(&leveled_values, i);
                proof {
                    assert(closing_brace > i) by {
                        assert(closing_from(w, i as int, 0) == closing_from(w, i + 1, 1));
                        lemma_closing_bounds(w, i + 1, 1);
                    }
                    assert(closing_brace as int == closing_of(w, i as int));
                }
                let mut sub_list: HalfParsed = Vec::new();
                let mut j = i + 1;
                while j < closing_brace
                    invariant
                        i + 1 <= j <= closing_brace <= leveled_values@.len(),
                        w == view_tokens(leveled_values@),
                        view_tokens(sub_list@) =~= w.subrange(i + 1, j as int),
                    decreases closing_brace - j,
                {
                    let tk = clone_token(&leveled_values[j]);
                    let ghost old_sub = sub_list@;
                    sub_list.push(tk);
                    proof {
                        assert(w[j as int] == view_token(leveled_values@[j as int]));
                        assert(sub_list@ == old_sub.push(tk));
                        assert(w.len() == leveled_values@.len());
                        assert(view_tokens(old_sub).len() == old_sub.len());
                        assert(old_sub.len() == j - (i + 1));
                        assert(sub_list@.len() == j + 1 - (i + 1));
                        assert forall|k: int| 0 <= k < sub_list@.len() implies view_tokens(
                            sub_list@,
                        )[k] == w.subrange(i + 1, j + 1)[k] by {
                            assert(view_tokens(sub_list@)[k] == view_token(sub_list@[k]));
                            assert(w.subrange(i + 1, j + 1)[k] == w[i + 1 + k]);
                            if k < old_sub.len() {
                                assert(sub_list@[k] == old_sub[k]);
                                assert(view_tokens(old_sub)[k] == view_token(old_sub[k]));
                                assert(view_tokens(old_sub)[k] == w.subrange(i + 1, j as int)[k]);
                                assert(w.subrange(i + 1, j as int)[k] == w[i + 1 + k]);
                            } else {
                                assert(k == old_sub.len());
                                assert(sub_list@[k] == tk);
                                assert(w[j as int] == view_token(tk));
                            }
                        }
                        assert(view_tokens(sub_list@) =~= w.subrange(i + 1, j + 1));
                    }
                    j += 1;
                }
                proof {
                    assert(view_tokens(sub_list@) =~= w.subrange(i + 1, closing_brace as int));
                }
                let sub_exp = merge_into_exp(sub_list);
                res.content.push(Either::That(Box::new(sub_exp)));
                proof {
                    let sub = w.subrange(i + 1, closing_of(w, i as int));
                    assert(res@.elems =~= res@.elems.drop_last() + seq![
                        ElemV::T(TreeV { elems: merge_from(sub, 0) }),
                    ]);
                    assert(res@.elems.drop_last() + (seq![
                        ElemV::T(TreeV { elems: merge_from(sub, 0) }),
                    ] + merge_from(w, closing_brace as int)) =~= res@.elems + merge_from(
                        w,
                        closing_brace as int,
                    ));
                }
                i = closing_brace;
            },
            Either::That(Delimeter::Close) => {
                proof {
                    assert(w[i as int] == view_token(leveled_values@[i as int]));
                }
                i += 1;
            },
        };
    }
    res
}

fn clone_token(t: &Either<Value, Delimeter>) -> (r: Either<Value, Delimeter>)
    ensures
        view_token(r) == view_token(*t),
{
    match t {
        Either::This(v) => Either::This(v.clone()),
        Either::That(d) => Either::That(*d),
    }
}

/// The tree a whole text denotes.
pub open spec fn parse_spec(s: Seq<char>) -> TreeV {
    TreeV { elems: merge_from(tokenize(s), 0) }
}

/// Parses raw text into the generic tree: tokenize, then merge. Unbalanced
/// parentheses never fail the scan; an unmatched open runs to the end of the
/// input and a stray close is ignored.
pub fn parse(s: &str) -> (r: Option<SExpr>)
    ensures
        r matches Some(t) && t@ == parse_spec(s@),
{
    let tokens = tokenize_text(s);
    Some(merge_into_exp(tokens))
}

// ---------------------------------------------------------------------------
// Well-formed trees: what the merge pass can produce.
// ---------------------------------------------------------------------------

/// A tree shape the parser can produce: no element holds an absent value
/// (the tokenizer drops empty tokens before they reach the tree).
pub open spec fn elems_wf(es: Seq<ElemV>) -> bool
    decreases es,
{
    if es.len() == 0 {
        true
    } else {
        (match es[0] {
            ElemV::V(v) => !(v is Absent),
            ElemV::T(sub) => elems_wf(sub.elems),
        }) && elems_wf(es.skip(1))
    }
}

/// Everything the merge pass builds is well-formed: absent values are
/// dropped, never stored, at every nesting depth.
pub proof fn lemma_merge_wf(toks: Seq<TokenV>, i: int)
    ensures
        elems_wf(merge_from(toks, i)),
    decreases toks.len(), toks.len() - i,
{
    if 0 <= i < toks.len() {
        match toks[i] {
            TokenV::V(v) => {
                lemma_merge_wf(toks, i + 1);
                if !(v is Absent) {
                    lemma_elems_wf_cons(ElemV::V(v), merge_from(toks, i + 1));
                }
            },
            TokenV::Open => {
                let c = closing_of(toks, i);
                let sub = toks.subrange(i + 1, c);
                lemma_merge_wf(sub, 0);
                lemma_merge_wf(toks, c);
                lemma_elems_wf_cons(
                    ElemV::T(TreeV { elems: merge_from(sub, 0) }),
                    merge_from(toks, c),
                );
            },
            TokenV::Close => {
                lemma_merge_wf(toks, i + 1);
            },
        }
    }
}

proof fn lemma_elems_wf_cons(e: ElemV, rest: Seq<ElemV>)
    requires
        (match e {
            ElemV::V(v) => !(v is Absent),
            ElemV::T(sub) => elems_wf(sub.elems),
        }),
        elems_wf(rest),
    ensures
        elems_wf(seq![e] + rest),
{
    let s = seq![e] + rest;
    assert(s[0] == e);
    assert(s.skip(1) =~= rest);
}

// ---------------------------------------------------------------------------
// The scan, composably: folding the tokenizer from any starting state.
// ---------------------------------------------------------------------------

/// The tokenizer run from an arbitrary state over a stretch of text.
pub open spec fn fold_from(st: TokSt, s: Seq<char>) -> TokSt
    decreases s.len(),
{
    if s.len() == 0 {
        st
    } else {
        fold_from(tok_step(st, s[0]), s.skip(1))
    }
}

proof fn lemma_fold_from_push(st: TokSt, s: Seq<char>, c: char)
    ensures
        fold_from(st, s.push(c)) == tok_step(fold_from(st, s), c),
    decreases s.len(),
{
    if s.len() == 0 {
        reveal_with_fuel(fold_from, 3);
        assert(s.push(c)[0] == c);
        assert(s.push(c).skip(1) =~= Seq::<char>::empty());
    } else {
        assert(s.push(c)[0] == s[0]);
        assert(s.push(c).skip(1) =~= s.skip(1).push(c));
        lemma_fold_from_push(tok_step(st, s[0]), s.skip(1), c);
    }
}

/// The whole-text scan is the fold from the initial state.
proof fn lemma_tok_fold_is_fold_from(s: Seq<char>)
    ensures
        tok_fold(s) == fold_from(tok_init(), s),
    decreases s.len(),
{
    if s.len() > 0 {
        lemma_tok_fold_is_fold_from(s.drop_last());
        lemma_fold_from_push(tok_init(), s.drop_last(), s.last());
        assert(s.drop_last().push(s.last()) =~= s);
    }
}

/// Folding over a concatenation is folding over each part in turn.
proof fn lemma_fold_from_append(st: TokSt, a: Seq<char>, b: Seq<char>)
    ensures
        fold_from(st, a + b) == fold_from(fold_from(st, a), b),
    decreases a.len(),
{
    if a.len() == 0 {
        assert(a + b =~= b);
    } else {
        assert((a + b)[0] == a[0]);
        assert((a + b).skip(1) =~= a.skip(1) + b);
        lemma_fold_from_append(tok_step(st, a[0]), a.skip(1), b);
    }
}

/// Whether a stretch of text passes through the scanner as the inside of
/// one chunk: each character is either inside a string literal, a quote, or
/// an ordinary character, and string mode is closed again at the end.
pub open spec fn keeps_from(in_s: bool, t: Seq<char>) -> bool
    decreases t.len(),
{
    if t.len() == 0 {
        !in_s
    } else {
        let c = t[0];
        let in2 = if c == '"' {
            !in_s
        } else {
            in_s
        };
        &&& (in2 || c == '"' || (!is_space_char(c) && c != '(' && c != ')'))
        &&& keeps_from(in2, t.skip(1))
    }
}

/// A chunk-safe stretch only grows the chunk: no token is flushed, no
/// delimiter emitted, and string mode ends closed. A quote toggles string
/// mode and is kept; inside a string every character is kept.
proof fn lemma_scan_chunk(st: TokSt, t: Seq<char>)
    requires
        keeps_from(st.in_string, t),
    ensures
        fold_from(st, t) == (TokSt { in_string: false, chunk: st.chunk + t, out: st.out }),
    decreases t.len(),
{
    if t.len() == 0 {
        assert(st.chunk + t =~= st.chunk);
        assert(!st.in_string);
        assert(st == (TokSt { in_string: false, chunk: st.chunk, out: st.out }));
    } else {
        let c = t[0];
        let in2 = if c == '"' {
            !st.in_string
        } else {
            st.in_string
        };
        let st2 = tok_step(st, c);
        assert(st2 == (TokSt { in_string: in2, chunk: st.chunk.push(c), out: st.out }));
        lemma_scan_chunk(st2, t.skip(1));
        assert(st.chunk.push(c) + t.skip(1) =~= st.chunk + t);
    }
}

// ---------------------------------------------------------------------------
// What the scan of a printed tree emits, token for token.
// ---------------------------------------------------------------------------

/// The tokens the scanner emits for one printed element. Flushing the empty
/// chunk at a parenthesis emits an absent value first; the merge pass drops
/// those again.
pub open spec fn scanned_elem(e: ElemV) -> Seq<TokenV>
    decreases e,
{
    match e {
        ElemV::V(v) => seq![TokenV::V(v)],
        ElemV::T(t) => seq![TokenV::V(ValueV::Absent), TokenV::Open] + scanned_elems(t.elems)
            + seq![TokenV::V(ValueV::Absent), TokenV::Close],
    }
}

pub open spec fn scanned_elems(es: Seq<ElemV>) -> Seq<TokenV>
    decreases es,
{
    if es.len() == 0 {
        Seq::empty()
    } else {
        scanned_elem(es[0]) + scanned_elems(es.skip(1))
    }
}

/// Scanning across a scanned subtree never returns the level to zero when
/// it starts at one or more: the interleaved absent values move it nowhere
/// and the delimiters are balanced.
proof fn lemma_closing_skips_scanned(es: Seq<ElemV>, toks: Seq<TokenV>, j: int, level: int)
    requires
        0 <= j,
        j + scanned_elems(es).len() <= toks.len(),
        toks.subrange(j, j + scanned_elems(es).len()) == scanned_elems(es),
        level >= 1,
    ensures
        closing_from(toks, j, level) == closing_from(toks, j + scanned_elems(es).len(), level),
    decreases es,
{
    if es.len() > 0 {
        let f0 = scanned_elem(es[0]);
        let frest = scanned_elems(es.skip(1));
        assert(scanned_elems(es) == f0 + frest);
        let flen = scanned_elems(es).len() as int;
        match es[0] {
            ElemV::V(v) => {
                assert(toks.subrange(j, j + flen)[0] == toks[j]);
                assert(toks[j] == TokenV::V(v));
                assert(closing_from(toks, j, level) == closing_from(toks, j + 1, level));
                assert(toks.subrange(j + 1, j + 1 + frest.len()) =~= frest) by {
                    assert forall|k: int| 0 <= k < frest.len() implies toks.subrange(
                        j + 1,
                        j + 1 + frest.len(),
                    )[k] == frest[k] by {
                        assert(toks.subrange(j, j + flen)[1 + k] == toks[j + 1 + k]);
                        assert(scanned_elems(es)[1 + k] == frest[k]);
                    }
                }
                lemma_closing_skips_scanned(es.skip(1), toks, j + 1, level);
            },
            ElemV::T(sub) => {
                let slen = scanned_elems(sub.elems).len() as int;
                assert(toks.subrange(j, j + flen)[0] == toks[j]);
                assert(toks.subrange(j, j + flen)[1] == toks[j + 1]);
                assert(toks[j] == TokenV::V(ValueV::Absent));
                assert(toks[j + 1] == TokenV::Open);
                assert(closing_from(toks, j, level) == closing_from(toks, j + 1, level));
                assert(closing_from(toks, j + 1, level) == closing_from(toks, j + 2, level + 1));
                assert(toks.subrange(j + 2, j + 2 + slen) =~= scanned_elems(sub.elems)) by {
                    assert forall|k: int| 0 <= k < slen implies toks.subrange(
                        j + 2,
                        j + 2 + slen,
                    )[k] == scanned_elems(sub.elems)[k] by {
                        assert(toks.subrange(j, j + flen)[2 + k] == toks[j + 2 + k]);
                        assert(scanned_elems(es)[2 + k] == (seq![
                            TokenV::V(ValueV::Absent),
                            TokenV::Open,
                        ] + scanned_elems(sub.elems) + seq![
                            TokenV::V(ValueV::Absent),
                            TokenV::Close,
                        ])[2 + k]);
                    }
                }
                lemma_closing_skips_scanned(sub.elems, toks, j + 2, level + 1);
                assert(toks.subrange(j, j + flen)[2 + slen] == toks[j + 2 + slen]);
                assert(scanned_elems(es)[2 + slen] == TokenV::V(ValueV::Absent));
                assert(toks[j + 2 + slen] == TokenV::V(ValueV::Absent));
                assert(toks.subrange(j, j + flen)[3 + slen] == toks[j + 3 + slen]);
                assert(scanned_elems(es)[3 + slen] == TokenV::Close);
                assert(toks[j + 3 + slen] == TokenV::Close);
                assert(closing_from(toks, j + 2 + slen, level + 1) == closing_from(
                    toks,
                    j + 3 + slen,
                    level + 1,
                ));
                assert(closing_from(toks, j + 3 + slen, level + 1) == closing_from(
                    toks,
                    j + slen + 4,
                    level,
                ));
                assert(toks.subrange(j + slen + 4, j + slen + 4 + frest.len()) =~= frest) by {
                    assert forall|k: int| 0 <= k < frest.len() implies toks.subrange(
                        j + slen + 4,
                        j + slen + 4 + frest.len(),
                    )[k] == frest[k] by {
                        assert(toks.subrange(j, j + flen)[slen + 4 + k] == toks[j + slen + 4 + k]);
                        assert(scanned_elems(es)[slen + 4 + k] == frest[k]);
                    }
                }
                lemma_closing_skips_scanned(es.skip(1), toks, j + slen + 4, level);
            },
        }
    }
}

/// Merging a scanned tree out of a larger stream yields exactly the tree's
/// elements, then whatever the rest of the stream yields: the interleaved
/// absent values are dropped, as the merge pass always drops them.
proof fn lemma_merge_scanned(es: Seq<ElemV>, toks: Seq<TokenV>, i: int)
    requires
        elems_wf(es),
        0 <= i,
        i + scanned_elems(es).len() <= toks.len(),
        toks.subrange(i, i + scanned_elems(es).len()) == scanned_elems(es),
    ensures
        merge_from(toks, i) == es + merge_from(toks, i + scanned_elems(es).len()),
    decreases es,
{
    let flen = scanned_elems(es).len() as int;
    if es.len() == 0 {
        assert(es + merge_from(toks, i) =~= merge_from(toks, i));
    } else {
        let f0 = scanned_elem(es[0]);
        let frest = scanned_elems(es.skip(1));
        assert(scanned_elems(es) == f0 + frest);
        match es[0] {
            ElemV::V(v) => {
                assert(toks.subrange(i, i + flen)[0] == toks[i]);
                assert(toks[i] == TokenV::V(v));
                assert(!(v is Absent));
                assert(toks.subrange(i + 1, i + 1 + frest.len()) =~= frest) by {
                    assert forall|k: int| 0 <= k < frest.len() implies toks.subrange(
                        i + 1,
                        i + 1 + frest.len(),
                    )[k] == frest[k] by {
                        assert(toks.subrange(i, i + flen)[1 + k] == toks[i + 1 + k]);
                        assert(scanned_elems(es)[1 + k] == frest[k]);
                    }
                }
                lemma_merge_scanned(es.skip(1), toks, i + 1);
                assert(merge_from(toks, i) == seq![ElemV::V(v)] + merge_from(toks, i + 1));
                assert(seq![ElemV::V(v)] + (es.skip(1) + merge_from(toks, i + flen)) =~= es
                    + merge_from(toks, i + flen)) by {
                    assert(seq![es[0]] + es.skip(1) =~= es);
                }
            },
            ElemV::T(sub) => {
                let slen = scanned_elems(sub.elems).len() as int;
                assert(toks.subrange(i, i + flen)[0] == toks[i]);
                assert(toks.subrange(i, i + flen)[1] == toks[i + 1]);
                assert(toks[i] == TokenV::V(ValueV::Absent));
                assert(toks[i + 1] == TokenV::Open);
                // The absent value is dropped.
                assert(merge_from(toks, i) == merge_from(toks, i + 1));
                // The matching close stands past the subtree and its absent
                // marker.
                let sub_zone = toks.subrange(i + 2, i + 2 + slen);
                assert(sub_zone =~= scanned_elems(sub.elems)) by {
                    assert forall|k: int| 0 <= k < slen implies sub_zone[k] == scanned_elems(
                        sub.elems,
                    )[k] by {
                        assert(toks.subrange(i, i + flen)[2 + k] == toks[i + 2 + k]);
                        assert(scanned_elems(es)[2 + k] == (seq![
                            TokenV::V(ValueV::Absent),
                            TokenV::Open,
                        ] + scanned_elems(sub.elems) + seq![
                            TokenV::V(ValueV::Absent),
                            TokenV::Close,
                        ])[2 + k]);
                    }
                }
                assert(closing_from(toks, i + 1, 0) == closing_from(toks, i + 2, 1));
                lemma_closing_skips_scanned(sub.elems, toks, i + 2, 1);
                assert(toks.subrange(i, i + flen)[2 + slen] == toks[i + 2 + slen]);
                assert(scanned_elems(es)[2 + slen] == TokenV::V(ValueV::Absent));
                assert(toks[i + 2 + slen] == TokenV::V(ValueV::Absent));
                assert(toks.subrange(i, i + flen)[3 + slen] == toks[i + 3 + slen]);
                assert(scanned_elems(es)[3 + slen] == TokenV::Close);
                assert(toks[i + 3 + slen] == TokenV::Close);
                assert(closing_from(toks, i + 2 + slen, 1) == closing_from(toks, i + 3 + slen, 1));
                assert(closing_from(toks, i + 3 + slen, 1) == i + 3 + slen);
                let c = closing_of(toks, i + 1);
                assert(c == i + 3 + slen);
                // The subtree merges to its own elements: its zone is the
                // scanned subtree plus the trailing absent marker.
                let sub_toks = toks.subrange(i + 2, c);
                assert(elems_wf(sub.elems));
                assert(sub_toks.subrange(0, slen) =~= scanned_elems(sub.elems)) by {
                    assert forall|k: int| 0 <= k < slen implies sub_toks.subrange(0, slen)[k]
                        == scanned_elems(sub.elems)[k] by {
                        assert(sub_toks.subrange(0, slen)[k] == sub_toks[k]);
                        assert(sub_toks[k] == sub_zone[k]);
                    }
                }
                lemma_merge_scanned(sub.elems, sub_toks, 0);
                assert(sub_toks[slen] == toks[i + 2 + slen]);
                assert(merge_from(sub_toks, slen) == merge_from(sub_toks, slen + 1));
                assert(merge_from(sub_toks, slen + 1) =~= Seq::<ElemV>::empty());
                assert(sub.elems + Seq::<ElemV>::empty() =~= sub.elems);
                assert(merge_from(sub_toks, 0) == sub.elems);
                assert(TreeV { elems: merge_from(sub_toks, 0) } == sub);
                // Past the close, the rest of the elements follow.
                assert(merge_from(toks, c) == merge_from(toks, c + 1));
                assert(toks.subrange(c + 1, c + 1 + frest.len()) =~= frest) by {
                    assert forall|k: int| 0 <= k < frest.len() implies toks.subrange(
                        c + 1,
                        c + 1 + frest.len(),
                    )[k] == frest[k] by {
                        assert(toks.subrange(i, i + flen)[slen + 4 + k] == toks[i + slen + 4 + k]);
                        assert(scanned_elems(es)[slen + 4 + k] == frest[k]);
                    }
                }
                lemma_merge_scanned(es.skip(1), toks, c + 1);
                assert(merge_from(toks, i + 1) == seq![ElemV::T(sub)] + merge_from(toks, c));
                assert(seq![ElemV::T(sub)] + (es.skip(1) + merge_from(toks, i + flen)) =~= es
                    + merge_from(toks, i + flen)) by {
                    assert(seq![es[0]] + es.skip(1) =~= es);
                }
            },
        }
    }
}

// ---------------------------------------------------------------------------
// Printing: the tree back to its tagged textual form.
// ---------------------------------------------------------------------------

/// How one element renders: a value with surrounding spaces, a subtree in
/// parentheses.
pub open spec fn print_elem(e: ElemV) -> Seq<char>
    decreases e,
{
    match e {
        ElemV::V(v) => seq![' '] + value_chars(v) + seq![' '],
        ElemV::T(t) => seq!['('] + print_elems(t.elems) + seq![')'],
    }
}

pub open spec fn print_elems(es: Seq<ElemV>) -> Seq<char>
    decreases es,
{
    if es.len() == 0 {
        Seq::empty()
    } else {
        print_elem(es[0]) + print_elems(es.skip(1))
    }
}

/// How a whole tree renders back to text.
pub open spec fn print_tree(t: TreeV) -> Seq<char> {
    print_elems(t.elems)
}

fn push_chars(out: &mut Vec<char>, cs: &Vec<char>)
    ensures
        final(out)@ == old(out)@ + cs@,
{
    let mut i: usize = 0;
    while i < cs.len()
        invariant
            i <= cs@.len(),
            out@ == old(out)@ + cs@.take(i as int),
        decreases cs@.len() - i,
    {
        out.push(cs[i]);
        proof {
            assert(old(out)@ + cs@.take(i + 1) =~= (old(out)@ + cs@.take(i as int)).push(
                cs@[i as int],
            ));
        }
        i += 1;
    }
    proof {
        assert(cs@.take(cs@.len() as int) =~= cs@);
    }
}

fn push_print_elem(out: &mut Vec<char>, e: &Element)
    ensures
        final(out)@ == old(out)@ + print_elem(view_elem(*e)),
    decreases *e,
{
    match e {
        Either::This(v) => {
            out.push(' ');
            let cs = crate::value::value_to_chars(v);
            push_chars(out, &cs);
            out.push(' ');
            proof {
                assert(final(out)@ =~= old(out)@ + print_elem(view_elem(*e)));
            }
        },
        Either::That(b) => {
            out.push('(');
            push_print_tree(out, b);
            out.push(')');
            proof {
                assert(final(out)@ =~= old(out)@ + print_elem(view_elem(*e)));
            }
        },
    }
}

fn push_print_tree(out: &mut Vec<char>, t: &SExpr)
    ensures
        final(out)@ == old(out)@ + print_tree(t@),
    decreases *t,
{
    let ghost es = t@.elems;
    let mut i: usize = 0;
    proof {
        assert(es.skip(0) =~= es);
    }
    while i < t.content.len()
        invariant
            i <= t.content@.len(),
            es == t@.elems,
            es.len() == t.content@.len(),
            old(out)@ + print_elems(es) == out@ + print_elems(es.skip(i as int)),
        decreases t.content@.len() - i,
    {
        proof {
            assert(es.skip(i as int)[0] == es[i as int]);
            assert(es[i as int] == view_elem(t.content[i as int]));
            assert(es.skip(i as int).skip(1) =~= es.skip(i + 1));
        }
        push_print_elem(out, &t.content[i]);
        i += 1;
    }
    proof {
        assert(es.skip(es.len() as int) =~= Seq::<ElemV>::empty());
        assert(out@ =~= old(out)@ + print_tree(t@));
    }
}

// ---------------------------------------------------------------------------
// Every chunk the scanner gathers is a clean token: it never holds an
// unquoted space or parenthesis, and its quotes are balanced whenever it is
// flushed.
// ---------------------------------------------------------------------------

/// The state after scanning `t` from string-mode `in_s` without ever
/// flushing, or nothing where some character would flush.
pub open spec fn no_flush(in_s: bool, t: Seq<char>) -> Option<bool>
    decreases t.len(),
{
    if t.len() == 0 {
        Some(in_s)
    } else {
        let c = t[0];
        let in2 = if c == '"' {
            !in_s
        } else {
            in_s
        };
        if in2 || c == '"' || (!is_space_char(c) && c != '(' && c != ')') {
            no_flush(in2, t.skip(1))
        } else {
            None
        }
    }
}

/// A no-flush stretch that ends outside a string is exactly a chunk-safe
/// stretch.
proof fn lemma_no_flush_keeps(in_s: bool, t: Seq<char>)
    requires
        no_flush(in_s, t) == Some(false),
    ensures
        keeps_from(in_s, t),
    decreases t.len(),
{
    if t.len() > 0 {
        let c = t[0];
        let in2 = if c == '"' {
            !in_s
        } else {
            in_s
        };
        lemma_no_flush_keeps(in2, t.skip(1));
    }
}

proof fn lemma_no_flush_push(in_s: bool, t: Seq<char>, fin: bool, c: char, fin2: bool)
    requires
        no_flush(in_s, t) == Some(fin),
        fin2 == (if c == '"' {
            !fin
        } else {
            fin
        }),
        fin2 || c == '"' || (!is_space_char(c) && c != '(' && c != ')'),
    ensures
        no_flush(in_s, t.push(c)) == Some(fin2),
    decreases t.len(),
{
    if t.len() == 0 {
        reveal_with_fuel(no_flush, 3);
        assert(t.push(c)[0] == c);
        assert(t.push(c).skip(1) =~= Seq::<char>::empty());
    } else {
        assert(t.push(c)[0] == t[0]);
        assert(t.push(c).skip(1) =~= t.skip(1).push(c));
        let in2 = if t[0] == '"' {
            !in_s
        } else {
            in_s
        };
        lemma_no_flush_push(in2, t.skip(1), fin, c, fin2);
    }
}

/// The shape every gathered chunk keeps: scanning it from outside a string
/// reaches the scanner's current string mode without a flush, it never
/// opens with a space or an open-paren, and outside a string it never ends
/// with a space or a close-paren.
pub open spec fn chunk_inv(st: TokSt) -> bool {
    &&& no_flush(false, st.chunk) == Some(st.in_string)
    &&& (st.chunk.len() > 0 ==> !is_space_char(st.chunk[0]) && st.chunk[0] != '(')
    &&& (!st.in_string && st.chunk.len() > 0 ==> !is_space_char(st.chunk.last())
        && st.chunk.last() != ')')
}

/// Whether a value may stand in a printed tree and scan back as itself.
pub open spec fn safe_value(v: ValueV) -> bool {
    &&& crate::value::value_readback_wf(v)
    &&& keeps_from(false, value_chars(v))
    &&& value_chars(v).len() > 0
}

/// Whether every value token of a stream is safe; absent values are allowed,
/// since the merge pass drops them.
pub open spec fn toks_safe(toks: Seq<TokenV>) -> bool {
    forall|i: int| 0 <= i < toks.len() ==> (match #[trigger] toks[i] {
        TokenV::V(v) => v is Absent || safe_value(v),
        _ => true,
    })
}

/// A chunk that satisfies the scan invariant outside a string reads as a
/// safe value or as the absent value.
proof fn lemma_chunk_value_safe(c: Seq<char>)
    requires
        no_flush(false, c) == Some(false),
        c.len() > 0 ==> !is_space_char(c[0]) && c[0] != '(',
        c.len() > 0 ==> !is_space_char(c.last()) && c.last() != ')',
    ensures
        turn_to_value_spec(c) is Absent || safe_value(turn_to_value_spec(c)),
{
    if c.len() == 0 {
        assert(crate::value::token_trim(c) =~= c);
    } else {
        crate::value::lemma_trim_noop_public(c);
        let t = crate::value::token_trim(c);
        assert(t == c);
        let v = turn_to_value_spec(c);
        if crate::value::is_int_token(t) && crate::value::int_token_fits(t) {
            assert(v == ValueV::Int(crate::value::int_token_val(t)));
            crate::value::lemma_int_chars_plain(crate::value::int_token_val(t));
            lemma_plain_keeps(value_chars(v));
        } else if crate::value::is_dec_token(t) && crate::value::dec_token_fits(t) {
            assert(v == ValueV::Dec(
                crate::value::dec_token_mantissa(t),
                crate::value::dec_token_scale(t),
            ));
            assert(crate::value::dec_token_scale(t) >= 1) by {
                crate::value::lemma_dec_scale_pos(t);
            }
            crate::value::lemma_dec_chars_plain(
                crate::value::dec_token_mantissa(t),
                crate::value::dec_token_scale(t),
            );
            lemma_plain_keeps(value_chars(v));
        } else {
            assert(v == ValueV::Text(c));
            lemma_no_flush_keeps(false, c);
        }
    }
}

/// The scanner's chunk invariant holds from the start and survives every
/// character, and every token it flushes is absent or safe.
proof fn lemma_tok_step_safe(st: TokSt, c: char)
    requires
        chunk_inv(st),
        toks_safe(st.out),
    ensures
        chunk_inv(tok_step(st, c)),
        toks_safe(tok_step(st, c).out),
    decreases 0int,
{
    let st2 = tok_step(st, c);
    let in2 = if c == '"' {
        !st.in_string
    } else {
        st.in_string
    };
    if in2 || (!is_space_char(c) && c != '(' && c != ')') {
        if st2.chunk == st.chunk.push(c) {
            lemma_no_flush_push(false, st.chunk, st.in_string, c, in2);
            assert(st.chunk.push(c)[0] == (if st.chunk.len() == 0 {
                c
            } else {
                st.chunk[0]
            }));
            assert(st.chunk.push(c).last() == c);
            if st.chunk.len() == 0 && !st.in_string && in2 {
                // the first kept character outside a string is a plain one
                assert(!is_space_char(c) && c != '(');
            }
        }
    }
    assert forall|i: int| 0 <= i < st2.out.len() implies (match #[trigger] st2.out[i] {
        TokenV::V(v) => v is Absent || safe_value(v),
        _ => true,
    }) by {
        if i < st.out.len() {
            assert(st2.out[i] == st.out[i]);
        } else {
            if st2.out != st.out {
                lemma_chunk_value_safe(st.chunk);
            }
        }
    }
}

/// Every token the whole scan emits is absent or safe, as long as the scan
/// ends outside a string literal.
proof fn lemma_tok_fold_safe(s: Seq<char>)
    ensures
        chunk_inv(tok_fold(s)),
        toks_safe(tok_fold(s).out),
    decreases s.len(),
{
    if s.len() == 0 {
        assert(no_flush(false, Seq::<char>::empty()) == Some(false));
    } else {
        lemma_tok_fold_safe(s.drop_last());
        lemma_tok_step_safe(tok_fold(s.drop_last()), s.last());
    }
}

/// The token stream of any text is safe, provided the scan ends outside a
/// string literal — that is, the text's quotes are balanced.
pub proof fn lemma_tokenize_safe(s: Seq<char>)
    requires
        !tok_fold(s).in_string,
    ensures
        toks_safe(tokenize(s)),
{
    lemma_tok_fold_safe(s);
    let st = tok_fold(s);
    if st.chunk.len() > 0 {
        lemma_chunk_value_safe(st.chunk);
        let out2 = st.out.push(TokenV::V(turn_to_value_spec(st.chunk)));
        assert forall|i: int| 0 <= i < out2.len() implies (match #[trigger] out2[i] {
            TokenV::V(v) => v is Absent || safe_value(v),
            _ => true,
        }) by {
            if i < st.out.len() {
                assert(out2[i] == st.out[i]);
            }
        }
    }
}

// ---------------------------------------------------------------------------
// The full round trip: scanning a printed tree and merging gives the tree.
// ---------------------------------------------------------------------------

/// A tree whose printed text scans back into its own tokens: every value is
/// present, reads back as itself, and passes through the scanner as one
/// chunk. Trees the parser produces have this shape, except where a string
/// value holds an unclosed quote.
pub open spec fn print_safe_elem(e: ElemV) -> bool
    decreases e,
{
    match e {
        ElemV::V(v) => {
            &&& !(v is Absent)
            &&& crate::value::value_readback_wf(v)
            &&& keeps_from(false, value_chars(v))
            &&& value_chars(v).len() > 0
        },
        ElemV::T(t) => print_safe_elems(t.elems),
    }
}

pub open spec fn print_safe_elems(es: Seq<ElemV>) -> bool
    decreases es,
{
    if es.len() == 0 {
        true
    } else {
        print_safe_elem(es[0]) && print_safe_elems(es.skip(1))
    }
}

proof fn lemma_print_safe_implies_wf(es: Seq<ElemV>)
    requires
        print_safe_elems(es),
    ensures
        elems_wf(es),
    decreases es,
{
    if es.len() > 0 {
        let e0 = es[0];
        assert(print_safe_elem(e0));
        match e0 {
            ElemV::V(_) => {
            },
            ElemV::T(sub) => {
                assert(print_safe_elems(sub.elems));
                lemma_print_safe_implies_wf(sub.elems);
            },
        }
        lemma_print_safe_implies_wf(es.skip(1));
    }
}

proof fn lemma_fold_single(st: TokSt, c: char)
    ensures
        fold_from(st, seq![c]) == tok_step(st, c),
{
    lemma_fold_from_push(st, Seq::<char>::empty(), c);
    assert(Seq::<char>::empty().push(c) =~= seq![c]);
}

/// The empty chunk reads as the absent value.
proof fn lemma_empty_chunk_absent()
    ensures
        turn_to_value_spec(Seq::<char>::empty()) == ValueV::Absent,
{
    assert(crate::value::token_trim(Seq::<char>::empty()) =~= Seq::<char>::empty());
}

/// Scanning the printed form of one element, from a clean state, emits
/// exactly the element's scanned tokens and ends clean again.
proof fn lemma_scan_print_elem(st: TokSt, e: ElemV)
    requires
        !st.in_string,
        st.chunk == Seq::<char>::empty(),
        print_safe_elem(e),
    ensures
        fold_from(st, print_elem(e)) == (TokSt {
            in_string: false,
            chunk: Seq::empty(),
            out: st.out + scanned_elem(e),
        }),
    decreases e,
{
    match e {
        ElemV::V(v) => {
            let vc = value_chars(v);
            assert(print_elem(e) == seq![' '] + vc + seq![' ']);
            lemma_fold_from_append(st, seq![' '] + vc, seq![' ']);
            lemma_fold_from_append(st, seq![' '], vc);
            lemma_fold_single(st, ' ');
            let st1 = tok_step(st, ' ');
            assert(st1 == st);
            lemma_scan_chunk(st1, vc);
            let st2 = fold_from(st1, vc);
            assert(st2 == (TokSt { in_string: false, chunk: Seq::<char>::empty() + vc, out: st.out }));
            assert(Seq::<char>::empty() + vc =~= vc);
            lemma_fold_single(st2, ' ');
            crate::value::lemma_value_print_read_round_trip(v);
            assert(tok_step(st2, ' ') == (TokSt {
                in_string: false,
                chunk: Seq::<char>::empty(),
                out: st.out.push(TokenV::V(v)),
            }));
            assert(st.out.push(TokenV::V(v)) =~= st.out + scanned_elem(e));
        },
        ElemV::T(sub) => {
            let inner = print_elems(sub.elems);
            assert(print_elem(e) == seq!['('] + inner + seq![')']);
            lemma_fold_from_append(st, seq!['('] + inner, seq![')']);
            lemma_fold_from_append(st, seq!['('], inner);
            lemma_fold_single(st, '(');
            lemma_empty_chunk_absent();
            let st1 = tok_step(st, '(');
            assert(st1 == (TokSt {
                in_string: false,
                chunk: Seq::<char>::empty(),
                out: st.out.push(TokenV::V(ValueV::Absent)).push(TokenV::Open),
            }));
            lemma_scan_print_elems(st1, sub.elems);
            let st2 = fold_from(st1, inner);
            lemma_fold_single(st2, ')');
            let st3 = tok_step(st2, ')');
            assert(st3.out =~= st.out + scanned_elem(e)) by {
                assert(st2.out == st1.out + scanned_elems(sub.elems));
                assert(st3.out == st2.out.push(TokenV::V(ValueV::Absent)).push(TokenV::Close));
                assert(scanned_elem(e) == seq![TokenV::V(ValueV::Absent), TokenV::Open]
                    + scanned_elems(sub.elems) + seq![TokenV::V(ValueV::Absent), TokenV::Close]);
            }
            assert(st3 == (TokSt {
                in_string: false,
                chunk: Seq::<char>::empty(),
                out: st.out + scanned_elem(e),
            }));
        },
    }
}

proof fn lemma_scan_print_elems(st: TokSt, es: Seq<ElemV>)
    requires
        !st.in_string,
        st.chunk == Seq::<char>::empty(),
        print_safe_elems(es),
    ensures
        fold_from(st, print_elems(es)) == (TokSt {
            in_string: false,
            chunk: Seq::empty(),
            out: st.out + scanned_elems(es),
        }),
    decreases es,
{
    if es.len() == 0 {
        assert(print_elems(es) == Seq::<char>::empty());
        assert(st.out + scanned_elems(es) =~= st.out);
        assert(st == (TokSt { in_string: false, chunk: Seq::<char>::empty(), out: st.out }));
    } else {
        assert(print_elems(es) == print_elem(es[0]) + print_elems(es.skip(1)));
        lemma_fold_from_append(st, print_elem(es[0]), print_elems(es.skip(1)));
        lemma_scan_print_elem(st, es[0]);
        let st1 = fold_from(st, print_elem(es[0]));
        lemma_scan_print_elems(st1, es.skip(1));
        assert((st.out + scanned_elem(es[0])) + scanned_elems(es.skip(1)) =~= st.out
            + scanned_elems(es));
    }
}

/// The round trip in full: a tree whose values print safely, printed to
/// text and parsed again, is the same tree. Only a string value holding an
/// unclosed quote escapes the hypothesis — and the parser emits such a value
/// only when its own input ended inside a string literal.
pub proof fn lemma_parse_print_round_trip(t: TreeV)
    requires
        print_safe_elems(t.elems),
    ensures
        parse_spec(print_tree(t)) == t,
{
    let text = print_tree(t);
    lemma_tok_fold_is_fold_from(text);
    lemma_scan_print_elems(tok_init(), t.elems);
    assert(tok_fold(text) == (TokSt {
        in_string: false,
        chunk: Seq::empty(),
        out: Seq::<TokenV>::empty() + scanned_elems(t.elems),
    }));
    assert(Seq::<TokenV>::empty() + scanned_elems(t.elems) =~= scanned_elems(t.elems));
    assert(tokenize(text) == scanned_elems(t.elems));
    let toks = scanned_elems(t.elems);
    lemma_print_safe_implies_wf(t.elems);
    assert(toks.subrange(0, toks.len() as int) =~= toks);
    lemma_merge_scanned(t.elems, toks, 0);
    assert(merge_from(toks, toks.len() as int) =~= Seq::<ElemV>::empty());
    assert(t.elems + Seq::<ElemV>::empty() =~= t.elems);
    assert(parse_spec(text) == (TreeV { elems: t.elems }));
}

proof fn lemma_print_safe_cons(e: ElemV, rest: Seq<ElemV>)
    requires
        print_safe_elem(e),
        print_safe_elems(rest),
    ensures
        print_safe_elems(seq![e] + rest),
{
    let s = seq![e] + rest;
    assert(s[0] == e);
    assert(s.skip(1) =~= rest);
}

/// The merge pass turns a safe token stream into a print-safe tree, at
/// every nesting depth: absent values are dropped and safe values are kept.
pub proof fn lemma_merge_safe(toks: Seq<TokenV>, i: int)
    requires
        toks_safe(toks),
    ensures
        print_safe_elems(merge_from(toks, i)),
    decreases toks.len(), toks.len() - i,
{
    if 0 <= i < toks.len() {
        match toks[i] {
            TokenV::V(v) => {
                lemma_merge_safe(toks, i + 1);
                if !(v is Absent) {
                    assert(safe_value(v));
                    lemma_print_safe_cons(ElemV::V(v), merge_from(toks, i + 1));
                }
            },
            TokenV::Open => {
                let c = closing_of(toks, i);
                let sub = toks.subrange(i + 1, c);
                assert(toks_safe(sub)) by {
                    assert forall|k: int| 0 <= k < sub.len() implies (match #[trigger] sub[k] {
                        TokenV::V(v2) => v2 is Absent || safe_value(v2),
                        _ => true,
                    }) by {
                        assert(sub[k] == toks[i + 1 + k]);
                    }
                }
                lemma_merge_safe(sub, 0);
                lemma_merge_safe(toks, c);
                lemma_print_safe_cons(
                    ElemV::T(TreeV { elems: merge_from(sub, 0) }),
                    merge_from(toks, c),
                );
            },
            TokenV::Close => {
                lemma_merge_safe(toks, i + 1);
            },
        }
    }
}

/// Round trip for parsed input — for any tree the parser produces, printing
/// it and parsing the text again yields the same tree. The one hypothesis:
/// the original text's string literals were all closed; a text that ends
/// inside a string literal (an unmatched quote) may parse to a tree whose
/// printed form scans differently.
pub proof fn lemma_parse_print_parse(s: Seq<char>)
    requires
        !tok_fold(s).in_string,
    ensures
        parse_spec(print_tree(parse_spec(s))) == parse_spec(s),
{
    lemma_tokenize_safe(s);
    lemma_merge_safe(tokenize(s), 0);
    lemma_parse_print_round_trip(parse_spec(s));
}

/// Plain numeric characters pass through the scanner as chunk content.
pub proof fn lemma_plain_keeps(t: Seq<char>)
    requires
        forall|i: int| 0 <= i < t.len() ==> crate::value::plain_char(#[trigger] t[i]),
    ensures
        keeps_from(false, t),
    decreases t.len(),
{
    if t.len() > 0 {
        assert(crate::value::plain_char(t[0]));
        assert(forall|i: int| 0 <= i < t.skip(1).len() ==> t.skip(1)[i] == t[i + 1]);
        lemma_plain_keeps(t.skip(1));
    }
}

// ---------------------------------------------------------------------------
// Queries over the tree.
// ---------------------------------------------------------------------------

/// The name of a tree: the rendered form of its first element if that is a
/// value, else empty.
pub open spec fn name_of(t: TreeV) -> Seq<char> {
    if t.elems.len() == 0 {
        Seq::empty()
    } else {
        match t.elems[0] {
            ElemV::V(v) => value_chars(v),
            ElemV::T(_) => Seq::empty(),
        }
    }
}

/// The trees that `get` finds: the tree itself, tag stripped, where its own
/// name equals the tag; otherwise every match inside its child trees, in
/// depth-first, left-to-right order — so a tag is found at any nesting depth.
pub open spec fn get_spec(t: TreeV, tag: Seq<char>) -> Seq<TreeV>
    decreases t,
{
    if name_of(t) == tag {
        let rest = if t.elems.len() >= 1 {
            t.elems.skip(1)
        } else {
            Seq::empty()
        };
        seq![TreeV { elems: rest }]
    } else {
        get_in_elems(t.elems, tag)
    }
}

pub open spec fn get_in_elems(es: Seq<ElemV>, tag: Seq<char>) -> Seq<TreeV>
    decreases es,
{
    if es.len() == 0 {
        Seq::empty()
    } else {
        (match es[0] {
            ElemV::T(sub) => get_spec(sub, tag),
            ElemV::V(_) => Seq::empty(),
        }) + get_in_elems(es.skip(1), tag)
    }
}

pub open spec fn view_trees(ts: Seq<SExpr>) -> Seq<TreeV> {
    Seq::new(ts.len(), |i: int| view_tree(ts[i]))
}

/// Character-for-character string equality, decided executably.
pub fn str_eq(a: &str, b: &str) -> (r: bool)
    ensures
        r == (a@ == b@),
{
    let va = str_to_chars(a);
    let vb = str_to_chars(b);
    if va.len() != vb.len() {
        return false;
    }
    let mut i: usize = 0;
    while i < va.len()
        invariant
            i <= va@.len(),
            va@.len() == vb@.len(),
            va@ == a@,
            vb@ == b@,
            forall|j: int| 0 <= j < i ==> a@[j] == b@[j],
        decreases va@.len() - i,
    {
        if va[i] != vb[i] {
            return false;
        }
        i += 1;
    }
    proof {
        assert(a@ =~= b@);
    }
    true
}

impl SExpr {
    /// An empty tree.
    pub fn new() -> (r: Self)
        ensures
            r@ == (TreeV { elems: Seq::<ElemV>::empty() }),
    {
        let r = SExpr { content: Vec::new() };
        proof {
            assert(r@.elems =~= Seq::<ElemV>::empty());
        }
        r
    }

    /// Appends a subtree at the end.
    pub fn append_exp(&mut self, s_expression: SExpr)
        ensures
            final(self)@.elems == old(self)@.elems.push(ElemV::T(s_expression@)),
    {
        let ghost pushed = s_expression@;
        self.content.push(Either::That(Box::new(s_expression)));
        proof {
            assert(final(self)@.elems =~= old(self)@.elems.push(ElemV::T(pushed)));
        }
    }

    /// Appends a value at the end.
    pub fn append_value(&mut self, value: Value)
        ensures
            final(self)@.elems == old(self)@.elems.push(ElemV::V(value@)),
    {
        let ghost pushed = value@;
        self.content.push(Either::This(value));
        proof {
            assert(final(self)@.elems =~= old(self)@.elems.push(ElemV::V(pushed)));
        }
    }

    /// Renders the tree back to the tagged textual form: values with
    /// surrounding spaces, subtrees wrapped in parentheses.
    pub fn print(&self) -> (r: String)
        ensures
            r@ == print_tree(self@),
    {
        let mut out: Vec<char> = Vec::new();
        push_print_tree(&mut out, self);
        proof {
            assert(Seq::<char>::empty() + print_tree(self@) =~= print_tree(self@));
        }
        chars_to_string(&out)
    }

    /// The rendered form of the first element if it is a value, else empty.
    pub fn get_name(&self) -> (r: String)
        ensures
            r@ == name_of(self@),
    {
        if self.content.len() == 0 {
            return String::new();
        }
        proof {
            assert(self@.elems[0] == view_elem(self.content[0]));
        }
        match &self.content[0] {
            Either::This(v) => value_as_string(v),
            Either::That(_) => String::new(),
        }
    }

    /// Every fragment tagged `name`, found at any nesting depth, in
    /// depth-first, left-to-right order; each with its tag element stripped.
    pub fn get(&self, name: &str) -> (r: Vec<SExpr>)
        ensures
            view_trees(r@) == get_spec(self@, name@),
        decreases *self,
    {
        let own = self.get_name();
        if str_eq(own.as_str(), name) {
            let mut rest: Vec<Element> = Vec::new();
            let mut i: usize = 1;
            while i < self.content.len()
                invariant
                    1 <= i <= self.content@.len() || (self.content@.len() == 0 && i == 1),
                    rest@.len() == if i > self.content@.len() {
                        0int
                    } else {
                        i - 1
                    },
                    forall|j: int| 0 <= j < rest@.len() ==> view_elem(#[trigger] rest@[j])
                        == view_elem(self.content@[j + 1]),
                decreases self.content@.len() - i,
            {
                rest.push(clone_elem(&self.content[i]));
                i += 1;
            }
            let sub = SExpr { content: rest };
            let mut r: Vec<SExpr> = Vec::new();
            r.push(sub);
            proof {
                let restv = if self@.elems.len() >= 1 {
                    self@.elems.skip(1)
                } else {
                    Seq::<ElemV>::empty()
                };
                assert(r@[0]@.elems =~= restv);
                assert(view_trees(r@) =~= get_spec(self@, name@));
            }
            r
        } else {
            let ghost es = self@.elems;
            let mut out: Vec<SExpr> = Vec::new();
            let mut i: usize = 0;
            proof {
                assert(es.skip(0) =~= es);
                assert(view_trees(out@) =~= Seq::<TreeV>::empty());
            }
            while i < self.content.len()
                invariant
                    i <= self.content@.len(),
                    es == self@.elems,
                    es.len() == self.content@.len(),
                    view_trees(out@) + get_in_elems(es.skip(i as int), name@) == get_in_elems(
                        es,
                        name@,
                    ),
                decreases self.content@.len() - i,
            {
                proof {
                    assert(es.skip(i as int)[0] == es[i as int]);
                    assert(es[i as int] == view_elem(self.content[i as int]));
                    assert(es.skip(i as int).skip(1) =~= es.skip(i + 1));
                }
                match &self.content[i] {
                    Either::That(exp) => {
                        let ghost before = out@;
                        let mut found = exp.get(name);
                        let ghost got = found@;
                        out.append(&mut found);
                        proof {
                            assert(out@ == before + got);
                            assert forall|k: int| 0 <= k < out@.len() implies view_trees(out@)[k]
                                == (view_trees(before) + view_trees(got))[k] by {
                                assert(view_trees(out@)[k] == view_tree(out@[k]));
                                if k < before.len() {
                                    assert(out@[k] == before[k]);
                                    assert(view_trees(before)[k] == view_tree(before[k]));
                                } else {
                                    assert(out@[k] == got[k - before.len()]);
                                    assert(view_trees(got)[k - before.len()] == view_tree(
                                        got[k - before.len()],
                                    ));
                                }
                            }
                            assert(view_trees(out@) =~= view_trees(before) + view_trees(got));
                        }
                    },
                    Either::This(_) => {
                        proof {
                            assert(view_trees(out@) + Seq::<TreeV>::empty() =~= view_trees(out@));
                        }
                    },
                };
                i += 1;
            }
            proof {
                assert(es.skip(es.len() as int) =~= Seq::<ElemV>::empty());
                assert(view_trees(out@) =~= get_in_elems(es, name@));
            }
            out
        }
    }
}


// ---------------------------------------------------------------------------
// Further queries: value projection, direct children, triviality.
// ---------------------------------------------------------------------------

/// What `get_value` yields: the first value of the first found fragment, or
/// nothing when there is no match or the fragment opens with a subtree or is
/// empty.
pub open spec fn get_value_spec(t: TreeV, tag: Seq<char>) -> Option<ValueV> {
    let rs = get_spec(t, tag);
    if rs.len() == 0 {
        None
    } else if rs[0].elems.len() == 0 {
        None
    } else {
        match rs[0].elems[0] {
            ElemV::V(v) => Some(v),
            ElemV::T(_) => None,
        }
    }
}

/// The direct value children of a tree, in order, subtrees skipped.
pub open spec fn values_of(es: Seq<ElemV>) -> Seq<ValueV>
    decreases es.len(),
{
    if es.len() == 0 {
        Seq::empty()
    } else {
        (match es[0] {
            ElemV::V(v) => seq![v],
            ElemV::T(_) => Seq::empty(),
        }) + values_of(es.skip(1))
    }
}

/// The direct subtree children of a tree, in order, values skipped.
pub open spec fn subs_of(es: Seq<ElemV>) -> Seq<TreeV>
    decreases es.len(),
{
    if es.len() == 0 {
        Seq::empty()
    } else {
        (match es[0] {
            ElemV::T(t) => seq![t],
            ElemV::V(_) => Seq::empty(),
        }) + subs_of(es.skip(1))
    }
}

pub open spec fn view_values(vs: Seq<Value>) -> Seq<ValueV> {
    Seq::new(vs.len(), |i: int| vs[i]@)
}

/// A tree with a single element that is itself a subtree.
pub open spec fn is_trivial_spec(t: TreeV) -> bool {
    t.elems.len() == 1 && t.elems[0] is T
}

/// What remains when every superfluous outer nesting is unwrapped.
pub open spec fn remove_trivial_spec(t: TreeV) -> TreeV
    decreases t,
{
    if is_trivial_spec(t) {
        remove_trivial_spec(t.elems[0]->T_0)
    } else {
        t
    }
}

impl SExpr {
    /// The first single value tagged `name`, or nothing.
    pub fn get_value(&self, name: &str) -> (r: Option<Value>)
        ensures
            (match r {
                Some(v) => get_value_spec(self@, name@) == Some(v@),
                None => get_value_spec(self@, name@) is None,
            }),
    {
        let gotten = self.get(name);
        if gotten.len() == 0 {
            proof {
                assert(view_trees(gotten@).len() == 0);
            }
            return None;
        }
        proof {
            assert(view_trees(gotten@)[0] == view_tree(gotten@[0]));
        }
        let first = &gotten[0];
        if first.content.len() == 0 {
            return None;
        }
        proof {
            assert(first@.elems[0] == view_elem(first.content[0]));
        }
        match &first.content[0] {
            Either::This(value) => Some(value.clone()),
            Either::That(_) => None,
        }
    }

    /// All direct value children, in order.
    pub fn values(&self) -> (r: Vec<Value>)
        ensures
            view_values(r@) == values_of(self@.elems),
    {
        let ghost es = self@.elems;
        let mut out: Vec<Value> = Vec::new();
        let mut i: usize = 0;
        proof {
            assert(es.skip(0) =~= es);
            assert(view_values(out@) =~= Seq::<ValueV>::empty());
        }
        while i < self.content.len()
            invariant
                i <= self.content@.len(),
                es == self@.elems,
                es.len() == self.content@.len(),
                view_values(out@) + values_of(es.skip(i as int)) == values_of(es),
            decreases self.content@.len() - i,
        {
            proof {
                assert(es.skip(i as int)[0] == es[i as int]);
                assert(es[i as int] == view_elem(self.content[i as int]));
                assert(es.skip(i as int).skip(1) =~= es.skip(i + 1));
            }
            match &self.content[i] {
                Either::This(value) => {
                    let ghost before = out@;
                    out.push(value.clone());
                    proof {
                        assert forall|k: int| 0 <= k < out@.len() implies view_values(out@)[k]
                            == (view_values(before) + seq![es[i as int]->V_0])[k] by {
                            assert(view_values(out@)[k] == out@[k]@);
                            if k < before.len() {
                                assert(out@[k] == before[k]);
                                assert(view_values(before)[k] == before[k]@);
                            }
                        }
                        assert(view_values(out@) =~= view_values(before) + seq![
                            es[i as int]->V_0,
                        ]);
                    }
                },
                Either::That(_) => {
                    proof {
                        assert(view_values(out@) + Seq::<ValueV>::empty() =~= view_values(out@));
                    }
                },
            };
            i += 1;
        }
        proof {
            assert(es.skip(es.len() as int) =~= Seq::<ElemV>::empty());
            assert(view_values(out@) =~= values_of(es));
        }
        out
    }

    /// All direct subtree children, in order.
    pub fn sub_expressions(&self) -> (r: Vec<SExpr>)
        ensures
            view_trees(r@) == subs_of(self@.elems),
    {
        let ghost es = self@.elems;
        let mut out: Vec<SExpr> = Vec::new();
        let mut i: usize = 0;
        proof {
            assert(es.skip(0) =~= es);
            assert(view_trees(out@) =~= Seq::<TreeV>::empty());
        }
        while i < self.content.len()
            invariant
                i <= self.content@.len(),
                es == self@.elems,
                es.len() == self.content@.len(),
                view_trees(out@) + subs_of(es.skip(i as int)) == subs_of(es),
            decreases self.content@.len() - i,
        {
            proof {
                assert(es.skip(i as int)[0] == es[i as int]);
                assert(es[i as int] == view_elem(self.content[i as int]));
                assert(es.skip(i as int).skip(1) =~= es.skip(i + 1));
            }
            match &self.content[i] {
                Either::That(exp) => {
                    let ghost before = out@;
                    out.push(clone_tree(exp));
                    proof {
                        assert forall|k: int| 0 <= k < out@.len() implies view_trees(out@)[k]
                            == (view_trees(before) + seq![es[i as int]->T_0])[k] by {
                            assert(view_trees(out@)[k] == view_tree(out@[k]));
                            if k < before.len() {
                                assert(out@[k] == before[k]);
                                assert(view_trees(before)[k] == view_tree(before[k]));
                            }
                        }
                        assert(view_trees(out@) =~= view_trees(before) + seq![es[i as int]->T_0]);
                    }
                },
                Either::This(_) => {
                    proof {
                        assert(view_trees(out@) + Seq::<TreeV>::empty() =~= view_trees(out@));
                    }
                },
            };
            i += 1;
        }
        proof {
            assert(es.skip(es.len() as int) =~= Seq::<ElemV>::empty());
            assert(view_trees(out@) =~= subs_of(es));
        }
        out
    }

    /// Whether the tree is a superfluous wrapper: a single element that is
    /// itself a subtree.
    pub fn is_trivial(&self) -> (r: bool)
        ensures
            r == is_trivial_spec(self@),
    {
        if self.content.len() != 1 {
            return false;
        }
        proof {
            assert(self@.elems[0] == view_elem(self.content[0]));
        }
        match &self.content[0] {
            Either::This(_) => false,
            Either::That(_) => true,
        }
    }

    /// A copy of the tree with every superfluous outer nesting unwrapped:
    /// while the tree is a lone wrapper around one subtree, that subtree
    /// replaces it.
    pub fn remove_trivial(&self) -> (r: SExpr)
        ensures
            r@ == remove_trivial_spec(self@),
        decreases *self,
    {
        if self.is_trivial() {
            proof {
                assert(self@.elems[0] == view_elem(self.content[0]));
            }
            match &self.content[0] {
                Either::This(_) => {
                    // is_trivial showed the sole element is a subtree
                    proof {
                        assert(false);
                    }
                    self.clone()
                },
                Either::That(inner) => inner.remove_trivial(),
            }
        } else {
            self.clone()
        }
    }
}

} // verus!
