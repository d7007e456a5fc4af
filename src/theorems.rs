//! Facts about parsing, compiling and running patterns together.
use vstd::prelude::*;
use crate::parser::{Re, ParseState, is_meta, parse_spec, run_prefix, fold_alts, close_level};
use crate::codegen::{Instruction, code, code_seq, size, size_seq, program};
use crate::evaluator::{State, is_run, is_run_from, accepts, next, accepting};

verus! {

/// The tree of a pattern of ordinary characters: one `Char` per character, in order.
pub open spec fn literal_tree(s: Seq<char>) -> Seq<Re>
    decreases s.len(),
{
    if s.len() == 0 {
        Seq::empty()
    } else {
        literal_tree(s.drop_last()).push(Re::Char(s.last()))
    }
}

/// The instructions that consume the characters of `s`, one each, in order.
pub open spec fn literal_code(s: Seq<char>) -> Seq<Instruction>
    decreases s.len(),
{
    if s.len() == 0 {
        Seq::empty()
    } else {
        literal_code(s.drop_last()).push(Instruction::Char(s.last()))
    }
}

/// The character at index `i` of `s`, as a value of type `char`.
proof fn char_at(s: Seq<char>, i: int) -> (c: char)
    requires
        0 <= i < s.len(),
    ensures
        c == s[i],
{
    s[i]
}

proof fn lemma_literal_code_index(s: Seq<char>)
    ensures
        literal_code(s).len() == s.len(),
        literal_tree(s).len() == s.len(),
        forall|i: int| 0 <= i < s.len() ==> #[trigger] literal_code(s)[i] == Instruction::Char(s[i]),
    decreases s.len(),
{
    if s.len() > 0 {
        lemma_literal_code_index(s.drop_last());
        let c = char_at(s, s.len() - 1);
        assert(literal_code(s) == literal_code(s.drop_last()).push(Instruction::Char(c)));
        assert(literal_tree(s) == literal_tree(s.drop_last()).push(Re::Char(c)));
    }
}

proof fn lemma_literal_run_prefix(s: Seq<char>, k: nat)
    requires
        k <= s.len(),
        forall|i: int| 0 <= i < s.len() ==> !is_meta(#[trigger] s[i]),
    ensures
        run_prefix(s, k) == Ok::<ParseState, crate::parser::ParseError>(
            ParseState {
                seq: literal_tree(s.subrange(0, k as int)),
                seq_or: Seq::empty(),
                stack: Seq::empty(),
                escape: false,
            },
        ),
    decreases k,
{
    if k > 0 {
        lemma_literal_run_prefix(s, (k - 1) as nat);
        let c = char_at(s, k - 1);
        assert(!is_meta(c));
        assert(s.subrange(0, k as int).drop_last() =~= s.subrange(0, k - 1));
    }
}

proof fn lemma_literal_code(s: Seq<char>, pc: int)
    ensures
        code_seq(literal_tree(s), pc) =~= literal_code(s),
        size_seq(literal_tree(s)) == s.len(),
    decreases s.len(),
{
    if s.len() > 0 {
        let t = literal_tree(s);
        let front = s.drop_last();
        let c = char_at(s, s.len() - 1);
        lemma_literal_code_index(front);
        assert(t == literal_tree(front).push(Re::Char(c)));
        assert(literal_code(s) == literal_code(front).push(Instruction::Char(c)));
        assert(t.subrange(0, t.len() - 1) =~= literal_tree(front));
        assert(t[t.len() - 1] == Re::Char(c));
        lemma_literal_code(front, pc);
        assert(code(Re::Char(c), pc + size_seq(literal_tree(front))) =~= seq![Instruction::Char(c)]);
        assert(size(Re::Char(c)) == 1);
        assert(size_seq(t) == size_seq(literal_tree(front)) + size(Re::Char(c)));
    }
}

/// Along any run of the program of literal characters `s` on `input`, the
/// machine is at address `k` with input cursor `k` after `k` steps, and the
/// first `k` characters of the input are those of `s`.
proof fn lemma_literal_path(s: Seq<char>, input: Seq<char>, path: Seq<State>, k: int)
    requires
        is_run(literal_code(s).push(Instruction::Match), input, path),
        0 <= k < path.len(),
    ensures
        path[k] == (k, k),
        k <= s.len(),
        k <= input.len(),
        forall|j: int| 0 <= j < k ==> input[j] == s[j],
    decreases k,
{
    let prog = literal_code(s).push(Instruction::Match);
    lemma_literal_code_index(s);
    if k > 0 {
        lemma_literal_path(s, input, path, k - 1);
        assert(next(prog, input, path[k - 1], path[k]));
        if k - 1 == s.len() {
            assert(prog[k - 1] == Instruction::Match);
        } else {
            assert(prog[k - 1] == Instruction::Char(s[k - 1]));
        }
    }
}

proof fn lemma_literal_parse(s: Seq<char>)
    requires
        s.len() > 0,
        forall|i: int| 0 <= i < s.len() ==> !is_meta(#[trigger] s[i]),
    ensures
        parse_spec(s) == Ok::<Re, crate::parser::ParseError>(Re::Concat(literal_tree(s))),
{
    lemma_literal_run_prefix(s, s.len());
    lemma_literal_code_index(s);
    assert(s.subrange(0, s.len() as int) =~= s);
    let alts = close_level(Seq::empty(), literal_tree(s));
    assert(alts =~= seq![Re::Concat(literal_tree(s))]);
    assert(fold_alts(alts) == Some(Re::Concat(literal_tree(s))));
}

proof fn lemma_literal_program(s: Seq<char>)
    ensures
        program(Re::Concat(literal_tree(s))) == literal_code(s).push(Instruction::Match),
        literal_code(s).len() == s.len(),
        forall|i: int| 0 <= i < s.len() ==> #[trigger] literal_code(s)[i] == Instruction::Char(s[i]),
{
    lemma_literal_code(s, 0);
    lemma_literal_code_index(s);
    assert(program(Re::Concat(literal_tree(s))) =~= literal_code(s).push(Instruction::Match));
}

proof fn lemma_literal_accepts_itself(s: Seq<char>)
    ensures
        accepts(literal_code(s).push(Instruction::Match), s, true),
{
    lemma_literal_code_index(s);
    let prog = literal_code(s).push(Instruction::Match);
    let path = Seq::new((s.len() + 1) as nat, |i: int| (i, i));
    assert forall|i: int| 0 <= i < path.len() - 1 implies next(
        prog,
        s,
        #[trigger] path[i],
        path[i + 1],
    ) by {
        assert(prog[i] == Instruction::Char(s[i]));
    }
    assert(is_run_from(prog, s, 0, path));
    assert(accepting(prog, s, true, path.last()));
}

proof fn lemma_literal_accepts_only_itself(s: Seq<char>, input: Seq<char>)
    requires
        accepts(literal_code(s).push(Instruction::Match), input, true),
    ensures
        input == s,
{
    let prog = literal_code(s).push(Instruction::Match);
    let path = choose|path: Seq<State>| is_run_from(prog, input, 0, path) && accepting(
        prog,
        input,
        true,
        path.last(),
    );
    lemma_literal_path(s, input, path, path.len() - 1);
    lemma_literal_code_index(s);
    let k = path.len() - 1;
    if k < s.len() {
        assert(prog[k] == Instruction::Char(s[k]));
    }
    assert(input =~= s);
}

proof fn lemma_literal_match(s: Seq<char>, input: Seq<char>)
    ensures
        accepts(program(Re::Concat(literal_tree(s))), input, true) <==> input == s,
{
    lemma_literal_program(s);
    if input == s {
        lemma_literal_accepts_itself(s);
    }
    if accepts(program(Re::Concat(literal_tree(s))), input, true) {
        lemma_literal_accepts_only_itself(s, input);
    }
}

/// A pattern made only of ordinary characters parses to the sequence of those
/// characters in order, and its program accepts exactly the input that equals it.
pub proof fn lemma_literal_pattern(s: Seq<char>, input: Seq<char>)
    requires
        s.len() > 0,
        forall|i: int| 0 <= i < s.len() ==> !is_meta(#[trigger] s[i]),
    ensures
        parse_spec(s) == Ok::<Re, crate::parser::ParseError>(Re::Concat(literal_tree(s))),
        accepts(program(Re::Concat(literal_tree(s))), input, true) <==> input == s,
{
    lemma_literal_parse(s);
    lemma_literal_match(s, input);
}

/// A star over the empty sequence compiles to a program that accepts at the
/// start of every input, without consuming any of it.
pub proof fn lemma_empty_star_accepts(input: Seq<char>)
    ensures
        accepts(program(Re::Star(Box::new(Re::Concat(Seq::empty())))), input, false),
{
    let inner = Re::Concat(Seq::empty());
    let prog = program(Re::Star(Box::new(inner)));
    assert(size_seq(Seq::<Re>::empty()) == 0);
    assert(code_seq(Seq::<Re>::empty(), 1) =~= Seq::<Instruction>::empty());
    assert(size(inner) == 0);
    assert(code(inner, 1) =~= Seq::<Instruction>::empty());
    assert(prog =~= seq![Instruction::Split(1, 2), Instruction::Jump(0), Instruction::Match]);
    let path = seq![(0int, 0int), (2int, 0int)];
    assert(next(prog, input, path[0], path[1]));
    assert(is_run(prog, input, path));
    assert(accepting(prog, input, false, path.last()));
}

} // verus!
