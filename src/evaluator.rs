//! Backtracking execution of compiled programs against input text.
use vstd::prelude::*;
use crate::codegen::Instruction;
use crate::parser::chars_of;

verus! {

/// A state of the machine: program counter and input cursor.
pub type State = (int, int);

/// Whether `s` is a state in which the machine can be: a valid address, and a
/// cursor within the input.
pub open spec fn valid(prog: Seq<Instruction>, input: Seq<char>, s: State) -> bool {
    0 <= s.0 < prog.len() && 0 <= s.1 <= input.len()
}

/// Whether the machine accepts in state `s`. With `exact`, the whole input must
/// have been consumed.
pub open spec fn accepting(prog: Seq<Instruction>, input: Seq<char>, exact: bool, s: State) -> bool {
    valid(prog, input, s) && prog[s.0] is Match && (!exact || s.1 == input.len())
}

/// One step of the machine from `s` to `t`. Steps to an address outside the
/// program lead nowhere and are left out.
pub open spec fn next(prog: Seq<Instruction>, input: Seq<char>, s: State, t: State) -> bool {
    valid(prog, input, s) && 0 <= t.0 < prog.len() && match prog[s.0] {
        Instruction::Char(c) => s.1 < input.len() && input[s.1] == c && t.0 == s.0 + 1 && t.1 == s.1
            + 1,
        Instruction::AnyChar => s.1 < input.len() && t.0 == s.0 + 1 && t.1 == s.1 + 1,
        Instruction::Match => false,
        Instruction::Jump(a) => t.0 == a && t.1 == s.1,
        Instruction::Split(a, b) => (t.0 == a || t.0 == b) && t.1 == s.1,
    }
}

/// A run of the machine: a sequence of steps from address 0 with the cursor at `start`.
pub open spec fn is_run_from(
    prog: Seq<Instruction>,
    input: Seq<char>,
    start: int,
    path: Seq<State>,
) -> bool {
    &&& path.len() > 0
    &&& path[0] == (0int, start)
    &&& forall|i: int| 0 <= i < path.len() - 1 ==> next(prog, input, #[trigger] path[i], path[i + 1])
}

/// A run of the machine from the start of the input.
pub open spec fn is_run(prog: Seq<Instruction>, input: Seq<char>, path: Seq<State>) -> bool {
    is_run_from(prog, input, 0, path)
}

pub open spec fn reachable(prog: Seq<Instruction>, input: Seq<char>, start: int, s: State) -> bool {
    exists|path: Seq<State>| is_run_from(prog, input, start, path) && path.last() == s
}

/// Whether some run of `prog` on `input` with the cursor first at `start`
/// reaches an accepting state.
pub open spec fn accepts_from(
    prog: Seq<Instruction>,
    input: Seq<char>,
    exact: bool,
    start: int,
) -> bool {
    exists|path: Seq<State>|
        is_run_from(prog, input, start, path) && accepting(prog, input, exact, path.last())
}

/// Whether some run of `prog` from the start of `input` reaches an accepting state.
pub open spec fn accepts(prog: Seq<Instruction>, input: Seq<char>, exact: bool) -> bool {
    accepts_from(prog, input, exact, 0)
}

spec fn count_false(s: Seq<bool>) -> nat
    decreases s.len(),
{
    if s.len() == 0 {
        0
    } else {
        count_false(s.drop_last()) + if s.last() {
            0nat
        } else {
            1nat
        }
    }
}

proof fn lemma_count_false_update(s: Seq<bool>, i: int)
    requires
        0 <= i < s.len(),
        !s[i],
    ensures
        count_false(s.update(i, true)) + 1 == count_false(s),
    decreases s.len(),
{
    let u = s.update(i, true);
    if i < s.len() - 1 {
        assert(u.drop_last() =~= s.drop_last().update(i, true));
        lemma_count_false_update(s.drop_last(), i);
    } else {
        assert(u.drop_last() =~= s.drop_last());
    }
}

spec fn slot(w: int, s: State) -> int {
    s.0 * w + s.1
}

proof fn lemma_slot(len: int, w: int, s: State, t: State)
    requires
        0 <= s.0 < len,
        0 <= s.1 < w,
        0 <= t.0 < len,
        0 <= t.1 < w,
    ensures
        0 <= slot(w, s) < len * w,
        slot(w, s) == slot(w, t) ==> s == t,
{
    assert(0 <= s.0 * w + s.1 < len * w) by (nonlinear_arith)
        requires
            0 <= s.0 < len,
            0 <= s.1 < w,
    ;
    if s.0 < t.0 {
        assert(s.0 * w + s.1 < t.0 * w + t.1) by (nonlinear_arith)
            requires
                s.0 < t.0,
                0 <= s.1 < w,
                0 <= t.1,
        ;
    } else if t.0 < s.0 {
        assert(t.0 * w + t.1 < s.0 * w + s.1) by (nonlinear_arith)
            requires
                t.0 < s.0,
                0 <= t.1 < w,
                0 <= s.1,
        ;
    }
}

spec fn on_stack(stack: Seq<(usize, usize)>, s: State) -> bool {
    exists|i: int| 0 <= i < stack.len() && stack[i].0 == s.0 && stack[i].1 == s.1
}

/// The states that one step leads to from `(pc, cur)`, in the order in which
/// they are to be tried.
fn successors(prog: &Vec<Instruction>, input: &Vec<char>, pc: usize, cur: usize) -> (r: Vec<
    (usize, usize),
>)
    requires
        valid(prog@, input@, (pc as int, cur as int)),
    ensures
        forall|t: State|
            next(prog@, input@, (pc as int, cur as int), t) <==> exists|j: int|
                0 <= j < r@.len() && r@[j].0 == t.0 && r@[j].1 == t.1,
        forall|j: int| 0 <= j < r@.len() ==> valid(prog@, input@, (r@[j].0 as int, r@[j].1 as int)),
{
    let mut r: Vec<(usize, usize)> = Vec::new();
    let ghost s = (pc as int, cur as int);
    let len = prog.len();
    let n = input.len();
    match prog[pc] {
        Instruction::Char(c) => {
            if cur < n && input[cur] == c && pc + 1 < len {
                r.push((pc + 1, cur + 1));
            }
        },
        Instruction::AnyChar => {
            if cur < n && pc + 1 < len {
                r.push((pc + 1, cur + 1));
            }
        },
        Instruction::Match => {},
        Instruction::Jump(a) => {
            if a < prog.len() {
                r.push((a, cur));
            }
        },
        Instruction::Split(a, b) => {
            if a < prog.len() {
                r.push((a, cur));
            }
            if b < prog.len() {
                r.push((b, cur));
            }
        },
    }
    proof {
        assert forall|t: State| next(prog@, input@, s, t) implies exists|j: int|
            0 <= j < r@.len() && r@[j].0 == t.0 && r@[j].1 == t.1 by {
            if prog@[pc as int] is Split && t.0 == prog@[pc as int]->Split_1 && t.0 != prog@[pc as int]->Split_0 {
                if prog@[pc as int]->Split_0 < prog@.len() {
                    assert(r@[1].0 == t.0);
                } else {
                    assert(r@[0].0 == t.0);
                }
            } else {
                assert(r@[0].0 == t.0);
            }
        }
    }
    r
}

proof fn lemma_reach_step(prog: Seq<Instruction>, input: Seq<char>, start: int, s: State, t: State)
    requires
        reachable(prog, input, start, s),
        next(prog, input, s, t),
    ensures
        reachable(prog, input, start, t),
{
    let path = choose|path: Seq<State>| is_run_from(prog, input, start, path) && path.last() == s;
    let p2 = path.push(t);
    assert forall|i: int| 0 <= i < p2.len() - 1 implies next(prog, input, #[trigger] p2[i], p2[i + 1]) by {
        if i < path.len() - 1 {
            assert(p2[i] == path[i] && p2[i + 1] == path[i + 1]);
        }
    }
    assert(is_run_from(prog, input, start, p2) && p2.last() == t);
}

proof fn lemma_reach_accept(
    prog: Seq<Instruction>,
    input: Seq<char>,
    exact: bool,
    start: int,
    t: State,
)
    requires
        reachable(prog, input, start, t),
        accepting(prog, input, exact, t),
    ensures
        accepts_from(prog, input, exact, start),
{
    let path = choose|path: Seq<State>| is_run_from(prog, input, start, path) && path.last() == t;
    assert(is_run_from(prog, input, start, path) && accepting(prog, input, exact, path.last()));
}

/// Every state of a run is valid and visited, when the visited set holds the
/// start and is closed under steps.
proof fn lemma_run_visited(
    prog: Seq<Instruction>,
    input: Seq<char>,
    w: int,
    visited: Seq<bool>,
    start: int,
    path: Seq<State>,
    k: int,
)
    requires
        w == input.len() + 1,
        prog.len() > 0,
        0 <= start <= input.len(),
        is_run_from(prog, input, start, path),
        0 <= k < path.len(),
        visited[slot(w, (0, start))],
        forall|s: State|
            valid(prog, input, s) && #[trigger] visited[slot(w, s)] ==> forall|t: State|
                #[trigger] next(prog, input, s, t) ==> visited[slot(w, t)],
    ensures
        valid(prog, input, path[k]),
        visited[slot(w, path[k])],
    decreases k,
{
    if k > 0 {
        lemma_run_visited(prog, input, w, visited, start, path, k - 1);
        assert(next(prog, input, path[k - 1], path[k]));
    }
}

fn accepts_at(prog: &Vec<Instruction>, input: &Vec<char>, exact: bool, pc: usize, cur: usize) -> (r:
    bool)
    requires
        valid(prog@, input@, (pc as int, cur as int)),
    ensures
        r == accepting(prog@, input@, exact, (pc as int, cur as int)),
{
    match prog[pc] {
        Instruction::Match => !exact || cur == input.len(),
        _ => false,
    }
}

/// Decides whether some run of `prog` on `input` from cursor `start` accepts,
/// by a depth-first search over the machine's states that enters each state at
/// most once. Each state taken from the stack of pending states is one step;
/// after `limit` steps the search gives up with `None`. A limit of at least
/// the number of states always gives a verdict.
fn search(prog: &Vec<Instruction>, input: &Vec<char>, start: usize, exact: bool, limit: usize) -> (r:
    Option<bool>)
    requires
        prog@.len() * (input@.len() + 1) <= usize::MAX,
        start <= input@.len(),
    ensures
        r matches Some(b) ==> b == accepts_from(prog@, input@, exact, start as int),
        limit >= prog@.len() * (input@.len() + 1) ==> r is Some,
{
    let len = prog.len();
    let n = input.len();
    if len == 0 {
        return Some(false);
    }
    proof {
        assert(n + 1 <= len * (n + 1)) by (nonlinear_arith)
            requires
                len >= 1,
        ;
    }
    let w = n + 1;
    let total = len * w;
    let ghost s0 = (0int, start as int);
    let mut visited: Vec<bool> = Vec::new();
    let mut k: usize = 0;
    while k < total
        invariant
            visited@.len() == k,
            k <= total,
            forall|j: int| 0 <= j < k ==> !visited@[j],
            count_false(visited@) == k,
        decreases total - k,
    {
        let ghost v0 = visited@;
        visited.push(false);
        proof {
            assert(visited@.drop_last() =~= v0);
        }
        k = k + 1;
    }
    proof {
        lemma_slot(len as int, w as int, s0, s0);
        let p0 = seq![s0];
        assert(is_run_from(prog@, input@, start as int, p0) && p0.last() == s0);
        assert(reachable(prog@, input@, start as int, s0));
    }
    if accepts_at(prog, input, exact, 0, start) {
        proof {
            lemma_reach_accept(prog@, input@, exact, start as int, s0);
        }
        return Some(true);
    }
    proof {
        lemma_count_false_update(visited@, start as int);
    }
    visited.set(start, true);
    let mut steps: usize = 0;
    let mut stack: Vec<(usize, usize)> = Vec::new();
    stack.push((0, start));
    proof {
        assert forall|s: State|
            valid(prog@, input@, s) && #[trigger] visited@[slot(w as int, s)] implies reachable(
                prog@,
                input@,
                start as int,
                s,
            ) && !accepting(prog@, input@, exact, s) by {
            lemma_slot(len as int, w as int, s, s0);
        }
        assert(stack@[0].0 as int == 0 && stack@[0].1 as int == start);
        assert(on_stack(stack@, s0));
        assert forall|s: State|
            valid(prog@, input@, s) && #[trigger] visited@[slot(w as int, s)] implies on_stack(
                stack@,
                s,
            ) by {
            lemma_slot(len as int, w as int, s, s0);
        }
    }
    while stack.len() > 0
        invariant
            len == prog@.len(),
            n == input@.len(),
            w == n + 1,
            total == len * w,
            len > 0,
            visited@.len() == total,
            visited@[slot(w as int, (0, start as int))],
            start <= n,
            forall|s: State|
                valid(prog@, input@, s) && #[trigger] visited@[slot(w as int, s)] ==> reachable(
                    prog@,
                    input@,
                    start as int,
                    s,
                ) && !accepting(prog@, input@, exact, s),
            forall|i: int|
                0 <= i < stack@.len() ==> valid(prog@, input@, (stack@[i].0 as int, stack@[i].1 as int))
                    && visited@[slot(w as int, (stack@[i].0 as int, stack@[i].1 as int))],
            forall|s: State|
                valid(prog@, input@, s) && #[trigger] visited@[slot(w as int, s)] ==> on_stack(stack@, s)
                    || forall|t: State| #[trigger]
                    next(prog@, input@, s, t) ==> visited@[slot(w as int, t)],
            steps + stack@.len() + count_false(visited@) == total,
        decreases count_false(visited@), stack@.len(),
    {
        if steps == limit {
            return None;
        }
        steps = steps + 1;
        let ghost c0 = count_false(visited@);
        let ghost l0 = stack@.len();
        let ghost st0 = stack@;
        let (pc, cur) = stack.pop().unwrap();
        let ghost s = (pc as int, cur as int);
        proof {
            assert(st0[st0.len() - 1] == (pc, cur));
            assert forall|u: State|
                valid(prog@, input@, u) && #[trigger] visited@[slot(w as int, u)] && u != s
                    && on_stack(st0, u) implies on_stack(stack@, u) by {
                let i = choose|i: int| 0 <= i < st0.len() && st0[i].0 == u.0 && st0[i].1 == u.1;
                assert(i < st0.len() - 1);
                assert(stack@[i] == st0[i]);
            }
        }
        let succ = successors(prog, input, pc, cur);
        let mut j = succ.len();
        while j > 0
            invariant
                len == prog@.len(),
                n == input@.len(),
                w == n + 1,
                total == len * w,
                len > 0,
                visited@.len() == total,
                visited@[slot(w as int, (0, start as int))],
            start <= n,
                valid(prog@, input@, s),
                visited@[slot(w as int, s)],
                j <= succ@.len(),
                forall|t: State|
                    next(prog@, input@, s, t) <==> exists|jj: int|
                        0 <= jj < succ@.len() && succ@[jj].0 == t.0 && succ@[jj].1 == t.1,
                forall|jj: int|
                    0 <= jj < succ@.len() ==> valid(prog@, input@, (succ@[jj].0 as int, succ@[jj].1 as int)),
                forall|jj: int|
                    j <= jj < succ@.len() ==> visited@[slot(w as int, (succ@[jj].0 as int, succ@[jj].1 as int))],
                forall|s: State|
                    valid(prog@, input@, s) && #[trigger] visited@[slot(w as int, s)] ==> reachable(
                        prog@,
                        input@,
                        start as int,
                        s,
                    ) && !accepting(prog@, input@, exact, s),
                forall|i: int|
                    0 <= i < stack@.len() ==> valid(prog@, input@, (stack@[i].0 as int, stack@[i].1 as int))
                        && visited@[slot(w as int, (stack@[i].0 as int, stack@[i].1 as int))],
                forall|u: State|
                    valid(prog@, input@, u) && #[trigger] visited@[slot(w as int, u)] && u != s ==> on_stack(stack@, u)
                        || forall|t: State| #[trigger]
                        next(prog@, input@, u, t) ==> visited@[slot(w as int, t)],
                count_false(visited@) < c0 || (count_false(visited@) == c0 && stack@.len() < l0),
                steps + stack@.len() + count_false(visited@) == total,
            decreases j,
        {
            j = j - 1;
            let (p2, c2) = succ[j];
            let ghost t = (p2 as int, c2 as int);
            proof {
                lemma_slot(len as int, w as int, t, t);
                assert(next(prog@, input@, s, t));
                lemma_reach_step(prog@, input@, start as int, s, t);
            }
            let id = p2 * w + c2;
            if !visited[id] {
                if accepts_at(prog, input, exact, p2, c2) {
                    proof {
                        lemma_reach_accept(prog@, input@, exact, start as int, t);
                    }
                    return Some(true);
                }
                let ghost v0 = visited@;
                let ghost sk0 = stack@;
                proof {
                    lemma_count_false_update(visited@, id as int);
                }
                visited.set(id, true);
                stack.push((p2, c2));
                proof {
                    assert forall|u: State| valid(prog@, input@, u) implies #[trigger] visited@[slot(w as int, u)]
                        == (v0[slot(w as int, u)] || u == t) by {
                        lemma_slot(len as int, w as int, u, t);
                    }
                    assert(stack@[stack@.len() - 1] == (p2, c2));
                    assert forall|u: State| on_stack(sk0, u) implies on_stack(stack@, u) by {
                        let i = choose|i: int| 0 <= i < sk0.len() && sk0[i].0 == u.0 && sk0[i].1 == u.1;
                        assert(stack@[i] == sk0[i]);
                    }
                    assert(on_stack(stack@, t));
                }
            }
        }
        proof {
            assert forall|t: State| #[trigger] next(prog@, input@, s, t) implies visited@[slot(w as int, t)] by {
                let jj = choose|jj: int| 0 <= jj < succ@.len() && succ@[jj].0 == t.0 && succ@[jj].1 == t.1;
                assert(succ@[jj].0 as int == t.0 && succ@[jj].1 as int == t.1);
            }
        }
    }
    proof {
        assert forall|path: Seq<State>| is_run_from(prog@, input@, start as int, path) implies !accepting(
            prog@,
            input@,
            exact,
            path.last(),
        ) by {
            lemma_run_visited(prog@, input@, w as int, visited@, start as int, path, path.len() - 1);
        }
    }
    Some(false)
}

/// Whether `prog`, started at address 0 at the start of `input`, reaches `Match`:
/// it accepts some prefix of `input`.
pub fn run(prog: &Vec<Instruction>, input: &str) -> (r: bool)
    requires
        prog@.len() * (input@.len() + 1) <= usize::MAX,
    ensures
        r == accepts(prog@, input@, false),
{
    let cs = chars_of(input);
    match search(prog, &cs, 0, false, usize::MAX) {
        Some(b) => b,
        None => false,
    }
}

/// Whether `prog` accepts the whole of `input`: it reaches `Match` with every
/// character consumed.
pub fn run_exact(prog: &Vec<Instruction>, input: &str) -> (r: bool)
    requires
        prog@.len() * (input@.len() + 1) <= usize::MAX,
    ensures
        r == accepts(prog@, input@, true),
{
    let cs = chars_of(input);
    match search(prog, &cs, 0, true, usize::MAX) {
        Some(b) => b,
        None => false,
    }
}

/// The first cursor position from which `prog` accepts some part of `input`
/// that starts there, if there is one.
pub fn find(prog: &Vec<Instruction>, input: &str) -> (r: Option<usize>)
    requires
        prog@.len() * (input@.len() + 1) <= usize::MAX,
    ensures
        match r {
            Some(k) => k <= input@.len() && accepts_from(prog@, input@, false, k as int) && forall|
                j: int,
            | 0 <= j < k ==> !accepts_from(prog@, input@, false, j),
            None => forall|j: int| 0 <= j <= input@.len() ==> !accepts_from(prog@, input@, false, j),
        },
{
    let cs = chars_of(input);
    let n = cs.len();
    if prog.len() == 0 {
        return None;
    }
    proof {
        assert(n + 1 <= prog@.len() * (n + 1)) by (nonlinear_arith)
            requires
                prog@.len() >= 1,
        ;
    }
    let mut k: usize = 0;
    while k <= n
        invariant
            n == input@.len(),
            cs@ == input@,
            k <= n + 1,
            n + 1 <= usize::MAX,
            prog@.len() * (input@.len() + 1) <= usize::MAX,
            forall|j: int| 0 <= j < k ==> !accepts_from(prog@, input@, false, j),
        decreases n + 1 - k,
    {
        if search(prog, &cs, k, false, usize::MAX) == Some(true) {
            return Some(k);
        }
        k = k + 1;
    }
    None
}

/// The outcome of a search that ran out of steps before reaching a verdict.
#[derive(Debug, Clone, Copy, PartialEq, Eq, Structural)]
pub struct StepLimitExceeded;

/// Like `run` (or `run_exact`, with `exact`), but gives up after `limit`
/// steps of the search. A limit of at least the number of machine states,
/// `prog.len() * (input length + 1)`, always gives a verdict.
pub fn run_bounded(prog: &Vec<Instruction>, input: &str, exact: bool, limit: usize) -> (r: Result<
    bool,
    StepLimitExceeded,
>)
    requires
        prog@.len() * (input@.len() + 1) <= usize::MAX,
    ensures
        r matches Ok(b) ==> b == accepts(prog@, input@, exact),
        limit >= prog@.len() * (input@.len() + 1) ==> r is Ok,
{
    let cs = chars_of(input);
    match search(prog, &cs, 0, exact, limit) {
        Some(b) => Ok(b),
        None => Err(StepLimitExceeded),
    }
}

} // verus!
