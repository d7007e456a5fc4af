//! Parsing of patterns into abstract syntax trees.
use vstd::prelude::*;
use vstd::std_specs::iter::IteratorSpec;

verus! {

/// Abstract syntax tree of a pattern.
#[derive(Debug, PartialEq)]
pub enum AST {
    Char(char),
    Dot,
    Plus(Box<AST>),
    Star(Box<AST>),
    Question(Box<AST>),
    Or(Box<AST>, Box<AST>),
    Concat(Vec<AST>),
}

/// Mathematical model of an `AST`: the same tree with sequences in place of vectors.
pub enum Re {
    Char(char),
    Dot,
    Plus(Box<Re>),
    Star(Box<Re>),
    Question(Box<Re>),
    Or(Box<Re>, Box<Re>),
    Concat(Seq<Re>),
}

impl AST {
    pub open spec fn view(&self) -> Re
        decreases self,
    {
        match self {
            AST::Char(c) => Re::Char(*c),
            AST::Dot => Re::Dot,
            AST::Plus(e) => Re::Plus(Box::new((**e).view())),
            AST::Star(e) => Re::Star(Box::new((**e).view())),
            AST::Question(e) => Re::Question(Box::new((**e).view())),
            AST::Or(l, r) => Re::Or(Box::new((**l).view()), Box::new((**r).view())),
            AST::Concat(v) => Re::Concat(views(v@)),
        }
    }
}

/// The models of a sequence of trees, element by element.
pub open spec fn views(s: Seq<AST>) -> Seq<Re>
    decreases s,
{
    if s.len() == 0 {
        Seq::empty()
    } else {
        views(s.subrange(0, s.len() - 1)).push(s[s.len() - 1].view())
    }
}

pub proof fn lemma_views(s: Seq<AST>)
    ensures
        views(s).len() == s.len(),
        forall|i: int| 0 <= i < s.len() ==> #[trigger] views(s)[i] == s[i].view(),
    decreases s.len(),
{
    if s.len() > 0 {
        lemma_views(s.subrange(0, s.len() - 1));
    }
}

pub proof fn lemma_views_push(s: Seq<AST>, a: AST)
    ensures
        views(s.push(a)) == views(s).push(a.view()),
{
    assert(s.push(a).subrange(0, s.len() as int) == s);
}

proof fn lemma_view_char(c: char)
    ensures
        AST::Char(c).view() == Re::Char(c),
{
}

/// Errors reported by `parse`, with the 0-based character offset where they were found.
#[derive(Debug, Clone, Copy, PartialEq, Eq, Structural)]
pub enum ParseError {
    InvalidEscape(usize, char),
    InvalidRightParen(usize),
    NoPrev(usize),
    NoRightParen,
    Empty,
}

/// The characters that lose their special meaning after a backslash.
pub open spec fn is_meta(c: char) -> bool {
    c == '\\' || c == '(' || c == ')' || c == '|' || c == '.' || c == '+' || c == '*' || c == '?'
}

/// Escaping special characters.
fn parse_escape(pos: usize, c: char) -> (r: Result<AST, ParseError>)
    ensures
        is_meta(c) ==> r == Ok::<AST, ParseError>(AST::Char(c)),
        !is_meta(c) ==> r == Err::<AST, ParseError>(ParseError::InvalidEscape(pos, c)),
{
    match c {
        '\\' | '(' | ')' | '|' | '.' | '+' | '*' | '?' => Ok(AST::Char(c)),
        _ => {
            let err = ParseError::InvalidEscape(pos, c);
            Err(err)
        },
    }
}

/// The postfix repetition operators.
enum PSQ {
    Plus,
    Star,
    Question,
}

/// The repetition that the operator character `c` applies to `e`.
pub open spec fn wrap(c: char, e: Re) -> Re {
    if c == '+' {
        Re::Plus(Box::new(e))
    } else if c == '*' {
        Re::Star(Box::new(e))
    } else {
        Re::Question(Box::new(e))
    }
}

spec fn psq_char(t: PSQ) -> char {
    match t {
        PSQ::Plus => '+',
        PSQ::Star => '*',
        PSQ::Question => '?',
    }
}

/// Applies a postfix operator to the last element of `seq`; with no element
/// there the operator has nothing to apply to.
fn parse_dot_plus_star_question(
    seq: &mut Vec<AST>,
    ast_type: PSQ,
    pos: usize,
) -> (r: Result<(), ParseError>)
    ensures
        old(seq)@.len() == 0 ==> r == Err::<(), ParseError>(ParseError::NoPrev(pos)) 
            && final(seq)@ == old(seq)@,
        old(seq)@.len() > 0 ==> r is Ok && views(final(seq)@) == views(old(seq)@).drop_last().push(
            wrap(psq_char(ast_type), views(old(seq)@).last()),
        ),
{
    let ghost s0 = seq@;
    if let Some(prev) = seq.pop() {
        let ast = match ast_type {
            PSQ::Plus => AST::Plus(Box::new(prev)),
            PSQ::Star => AST::Star(Box::new(prev)),
            PSQ::Question => AST::Question(Box::new(prev)),
        };
        proof {
            lemma_views_push(seq@, ast);
            lemma_views(s0);
        }
        seq.push(ast);
        Ok(())
    } else {
        Err(ParseError::NoPrev(pos))
    }
}

/// Right fold of alternatives: `[a, b, c]` becomes `Or(a, Or(b, c))`.
pub open spec fn fold_alts(s: Seq<Re>) -> Option<Re>
    decreases s.len(),
{
    if s.len() == 0 {
        None
    } else if s.len() == 1 {
        Some(s[0])
    } else {
        Some(Re::Or(Box::new(s[0]), Box::new(fold_alts(s.subrange(1, s.len() as int))->0)))
    }
}

/// Joins the alternatives of one nesting level into a single tree.
fn fold_or(mut seq_or: Vec<AST>) -> (r: Option<AST>)
    ensures
        match r {
            Some(a) => fold_alts(views(seq_or@)) == Some(a.view()),
            None => fold_alts(views(seq_or@)) is None,
        },
{
    let ghost s0 = views(seq_or@);
    proof {
        lemma_views(seq_or@);
    }
    if seq_or.len() == 0 {
        return None;
    }
    let mut ast = seq_or.pop().unwrap();
    proof {
        assert(s0.subrange(s0.len() - 1, s0.len() as int) =~= seq![ast.view()]);
    }
    while seq_or.len() > 0
        invariant
            s0.len() > 0,
            seq_or@.len() < s0.len(),
            forall|i: int| 0 <= i < seq_or@.len() ==> #[trigger] seq_or@[i].view() == s0[i],
            fold_alts(s0.subrange(seq_or@.len() as int, s0.len() as int)) == Some(ast.view()),
        decreases seq_or@.len(),
    {
        let ghost k = seq_or@.len() as int;
        let s = seq_or.pop().unwrap();
        proof {
            let t = s0.subrange(k - 1, s0.len() as int);
            assert(t.subrange(1, t.len() as int) =~= s0.subrange(k, s0.len() as int));
            assert(t[0] == s.view());
        }
        ast = AST::Or(Box::new(s), Box::new(ast));
    }
    proof {
        assert(s0.subrange(0, s0.len() as int) =~= s0);
    }
    Some(ast)
}

/// The characters of `s`, in order.
pub(crate) fn chars_of(s: &str) -> (r: Vec<char>)
    ensures
        r@ == s@,
{
    broadcast use vstd::string::axiom_spec_iter, vstd::string::next_postcondition;

    let mut it = s.chars();
    let mut v: Vec<char> = Vec::new();
    loop
        invariant
            v@ + it.remaining() == s@,
            it.obeys_prophetic_iter_laws(),
            it.decrease() is Some,
        decreases it.decrease()->0,
    {
        match it.next() {
            Some(c) => {
                v.push(c);
                assert(v@ + it.remaining() =~= s@);
            },
            None => {
                assert(v@ =~= s@);
                return v;
            },
        }
    }
}

/// State of the parser between two characters of the pattern: the sequence
/// being built, the alternatives already closed at this nesting level, the
/// saved (sequence, alternatives) pairs of the enclosing groups, and whether a
/// backslash is pending.
pub struct ParseState {
    pub seq: Seq<Re>,
    pub seq_or: Seq<Re>,
    pub stack: Seq<(Seq<Re>, Seq<Re>)>,
    pub escape: bool,
}

/// The alternatives of a level once its current sequence is closed: an empty
/// sequence adds no alternative.
pub open spec fn close_level(seq_or: Seq<Re>, seq: Seq<Re>) -> Seq<Re> {
    if seq.len() > 0 {
        seq_or.push(Re::Concat(seq))
    } else {
        seq_or
    }
}

pub open spec fn initial_state() -> ParseState {
    ParseState { seq: Seq::empty(), seq_or: Seq::empty(), stack: Seq::empty(), escape: false }
}

/// One step of the parser on the character `c` at offset `i`.
pub open spec fn step(st: ParseState, i: usize, c: char) -> Result<ParseState, ParseError> {
    if st.escape {
        if is_meta(c) {
            Ok(ParseState { seq: st.seq.push(Re::Char(c)), escape: false, ..st })
        } else {
            Err(ParseError::InvalidEscape(i, c))
        }
    } else if c == '+' || c == '*' || c == '?' {
        if st.seq.len() == 0 {
            Err(ParseError::NoPrev(i))
        } else {
            Ok(ParseState { seq: st.seq.drop_last().push(wrap(c, st.seq.last())), ..st })
        }
    } else if c == '(' {
        Ok(
            ParseState {
                seq: Seq::empty(),
                seq_or: Seq::empty(),
                stack: st.stack.push((st.seq, st.seq_or)),
                escape: false,
            },
        )
    } else if c == ')' {
        if st.stack.len() == 0 {
            Err(ParseError::InvalidRightParen(i))
        } else {
            let prev = st.stack.last();
            let inner = fold_alts(close_level(st.seq_or, st.seq));
            Ok(
                ParseState {
                    seq: match inner {
                        Some(a) => prev.0.push(a),
                        None => prev.0,
                    },
                    seq_or: prev.1,
                    stack: st.stack.drop_last(),
                    escape: false,
                },
            )
        }
    } else if c == '|' {
        if st.seq.len() == 0 {
            Err(ParseError::NoPrev(i))
        } else {
            Ok(ParseState { seq: Seq::empty(), seq_or: close_level(st.seq_or, st.seq), ..st })
        }
    } else if c == '\\' {
        Ok(ParseState { escape: true, ..st })
    } else if c == '.' {
        Ok(ParseState { seq: st.seq.push(Re::Dot), ..st })
    } else {
        Ok(ParseState { seq: st.seq.push(Re::Char(c)), ..st })
    }
}

/// The parser's state after the first `n` characters of `s`, or the first error.
pub open spec fn run_prefix(s: Seq<char>, n: nat) -> Result<ParseState, ParseError>
    decreases n,
{
    if n == 0 {
        Ok(initial_state())
    } else {
        match run_prefix(s, (n - 1) as nat) {
            Ok(st) => step(st, (n - 1) as usize, s[n - 1]),
            Err(e) => Err(e),
        }
    }
}

/// What the parser makes of the whole input once every character is read.
pub open spec fn finish(st: ParseState) -> Result<Re, ParseError> {
    if st.stack.len() > 0 {
        Err(ParseError::NoRightParen)
    } else {
        match fold_alts(close_level(st.seq_or, st.seq)) {
            Some(a) => Ok(a),
            None => Err(ParseError::Empty),
        }
    }
}

/// The result of parsing the pattern `s`.
pub open spec fn parse_spec(s: Seq<char>) -> Result<Re, ParseError> {
    match run_prefix(s, s.len()) {
        Ok(st) => finish(st),
        Err(e) => Err(e),
    }
}

proof fn lemma_run_err(s: Seq<char>, i: nat, n: nat)
    requires
        i <= n,
        run_prefix(s, i) is Err,
    ensures
        run_prefix(s, n) == run_prefix(s, i),
    decreases n - i,
{
    if i < n {
        lemma_run_err(s, i, (n - 1) as nat);
    }
}

/// The models of the saved frames of the group stack.
pub open spec fn frames(st: Seq<(Vec<AST>, Vec<AST>)>) -> Seq<(Seq<Re>, Seq<Re>)> {
    Seq::new(st.len(), |i: int| (views(st[i].0@), views(st[i].1@)))
}

/// Converts a regular expression to an abstract syntax tree.
pub fn parse(expr: &str) -> (r: Result<AST, ParseError>)
    ensures
        parse_spec(expr@) == match r {
            Ok(a) => Ok::<Re, ParseError>(a.view()),
            Err(e) => Err(e),
        },
{
    let cs = chars_of(expr);
    let mut seq: Vec<AST> = Vec::new();
    let mut seq_or: Vec<AST> = Vec::new();
    let mut stack: Vec<(Vec<AST>, Vec<AST>)> = Vec::new();
    let mut escape = false;
    let n = cs.len();
    let mut i: usize = 0;
    proof {
        assert(frames(stack@) =~= Seq::empty());
    }
    while i < n
        invariant
            n == cs@.len(),
            cs@ == expr@,
            i <= n,
            run_prefix(expr@, i as nat) == Ok::<ParseState, ParseError>(
                ParseState {
                    seq: views(seq@),
                    seq_or: views(seq_or@),
                    stack: frames(stack@),
                    escape,
                },
            ),
        decreases n - i,
    {
        let c = cs[i];
        let ghost st = run_prefix(expr@, i as nat)->Ok_0;
        let ghost next = run_prefix(expr@, (i + 1) as nat);
        assert(next == step(st, i, c));
        if escape {
            match parse_escape(i, c) {
                Ok(ast) => {
                    proof {
                        lemma_views_push(seq@, ast);
                    }
                    seq.push(ast);
                    escape = false;
                },
                Err(e) => {
                    proof {
                        lemma_run_err(expr@, (i + 1) as nat, n as nat);
                    }
                    return Err(e);
                },
            }
        } else if c == '+' || c == '*' || c == '?' {
            let t = if c == '+' {
                PSQ::Plus
            } else if c == '*' {
                PSQ::Star
            } else {
                PSQ::Question
            };
            match parse_dot_plus_star_question(&mut seq, t, i) {
                Ok(()) => {},
                Err(e) => {
                    proof {
                        lemma_run_err(expr@, (i + 1) as nat, n as nat);
                    }
                    return Err(e);
                },
            }
        } else if c == '(' {
            let prev = seq;
            let prev_or = seq_or;
            proof {
                assert(frames(stack@.push((prev, prev_or))) =~= frames(stack@).push(
                    (views(prev@), views(prev_or@)),
                ));
            }
            stack.push((prev, prev_or));
            seq = Vec::new();
            seq_or = Vec::new();
        } else if c == ')' {
            let ghost s0 = stack@;
            match stack.pop() {
                Some(frame) => {
                    proof {
                        assert(frames(stack@) =~= frames(s0).drop_last());
                        assert(frames(s0).last() == (views(frame.0@), views(frame.1@)));
                    }
                    let (mut prev, prev_or) = frame;
                    if seq.len() > 0 {
                        proof {
                            lemma_views_push(seq_or@, AST::Concat(seq));
                        }
                        seq_or.push(AST::Concat(seq));
                    }
                    match fold_or(seq_or) {
                        Some(ast) => {
                            proof {
                                lemma_views_push(prev@, ast);
                            }
                            prev.push(ast);
                        },
                        None => {},
                    }
                    seq = prev;
                    seq_or = prev_or;
                },
                None => {
                    proof {
                        lemma_run_err(expr@, (i + 1) as nat, n as nat);
                    }
                    return Err(ParseError::InvalidRightParen(i));
                },
            }
        } else if c == '|' {
            if seq.len() == 0 {
                proof {
                    lemma_run_err(expr@, (i + 1) as nat, n as nat);
                }
                return Err(ParseError::NoPrev(i));
            }
            let prev = seq;
            proof {
                lemma_views_push(seq_or@, AST::Concat(prev));
            }
            seq_or.push(AST::Concat(prev));
            seq = Vec::new();
        } else if c == '\\' {
            escape = true;
        } else if c == '.' {
            proof {
                lemma_views_push(seq@, AST::Dot);
            }
            seq.push(AST::Dot);
        } else {
            proof {
                lemma_views_push(seq@, AST::Char(c));
                lemma_view_char(c);
            }
            seq.push(AST::Char(c));
        }
        i = i + 1;
    }
    if stack.len() > 0 {
        return Err(ParseError::NoRightParen);
    }
    if seq.len() > 0 {
        proof {
            lemma_views_push(seq_or@, AST::Concat(seq));
        }
        seq_or.push(AST::Concat(seq));
    }
    match fold_or(seq_or) {
        Some(ast) => Ok(ast),
        None => Err(ParseError::Empty),
    }
}

} // verus!
