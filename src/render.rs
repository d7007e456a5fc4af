//! Indented tree rendering of syntax trees, for diagnostics.
use vstd::prelude::*;
use crate::parser::{AST, Re, views, lemma_views, chars_of};

verus! {

/// Nesting height of a tree: each operator or sequence adds a level below it.
pub open spec fn height(e: Re) -> nat
    decreases e,
{
    match e {
        Re::Char(_) => 0,
        Re::Dot => 0,
        Re::Plus(b) => height(*b) + 1,
        Re::Star(b) => height(*b) + 1,
        Re::Question(b) => height(*b) + 1,
        Re::Or(l, r) => if height(*l) + 1 >= height(*r) {
            height(*l) + 1
        } else {
            height(*r)
        },
        Re::Concat(s) => height_seq(s) + 1,
    }
}

/// The greatest height of the trees in `s`.
pub open spec fn height_seq(s: Seq<Re>) -> nat
    decreases s,
{
    if s.len() == 0 {
        0
    } else {
        let front = height_seq(s.subrange(0, s.len() - 1));
        let last = height(s[s.len() - 1]);
        if front >= last {
            front
        } else {
            last
        }
    }
}

pub open spec fn spaces(n: nat) -> Seq<char>
    decreases n,
{
    if n == 0 {
        Seq::empty()
    } else {
        spaces((n - 1) as nat).push(' ')
    }
}

/// The start of the line of an operator node.
pub open spec fn head(depth: nat) -> Seq<char> {
    spaces(depth) + if depth == 0 {
        "  "@
    } else {
        "└─"@
    }
}

/// The text of `e` drawn as a tree whose root stands at column `depth`, one
/// node per line.
pub open spec fn tree_text(e: Re, depth: nat) -> Seq<char>
    decreases e,
{
    match e {
        Re::Char(c) => spaces(depth) + "└─Char("@ + seq![c] + ")\n"@,
        Re::Dot => spaces(depth) + "└─Dot\n"@,
        Re::Plus(b) => head(depth) + "Plus\n"@ + tree_text(*b, depth + 2),
        Re::Star(b) => head(depth) + "Star\n"@ + tree_text(*b, depth + 2),
        Re::Question(b) => head(depth) + "Question\n"@ + tree_text(*b, depth + 2),
        Re::Or(l, r) => head(depth) + "Or\n"@ + tree_text(*l, depth + 2) + tree_text(*r, depth),
        Re::Concat(s) => head(depth) + "Seq\n"@ + tree_seq_text(s, depth + 2),
    }
}

/// The trees of `s` drawn one after the other at column `depth`.
pub open spec fn tree_seq_text(s: Seq<Re>, depth: nat) -> Seq<char>
    decreases s,
{
    if s.len() == 0 {
        Seq::empty()
    } else {
        tree_seq_text(s.subrange(0, s.len() - 1), depth) + tree_text(s[s.len() - 1], depth)
    }
}

fn push_text(out: &mut Vec<char>, text: &str)
    ensures
        final(out)@ == old(out)@ + text@,
{
    let mut cs = chars_of(text);
    out.append(&mut cs);
}

fn push_spaces(out: &mut Vec<char>, n: usize)
    ensures
        final(out)@ == old(out)@ + spaces(n as nat),
{
    let ghost o = out@;
    let mut i: usize = 0;
    while i < n
        invariant
            i <= n,
            out@ == o + spaces(i as nat),
        decreases n - i,
    {
        out.push(' ');
        i = i + 1;
        proof {
            assert(out@ =~= o + spaces(i as nat));
        }
    }
}

fn push_head(out: &mut Vec<char>, depth: usize)
    ensures
        final(out)@ == old(out)@ + head(depth as nat),
{
    let ghost o = out@;
    push_spaces(out, depth);
    if depth == 0 {
        push_text(out, "  ");
    } else {
        push_text(out, "└─");
    }
    proof {
        assert(out@ =~= o + head(depth as nat));
    }
}

proof fn lemma_height_seq(s: Seq<Re>, i: int)
    requires
        0 <= i < s.len(),
    ensures
        height(s[i]) <= height_seq(s),
    decreases s.len(),
{
    if i < s.len() - 1 {
        let front = s.subrange(0, s.len() - 1);
        assert(front[i] == s[i]);
        lemma_height_seq(front, i);
    }
}

impl AST {
    /// Appends the tree drawing of this node, with its root at column `depth`.
    pub fn fmt_with_indent(&self, out: &mut Vec<char>, depth: usize)
        requires
            depth + 2 * height(self.view()) <= usize::MAX,
        ensures
            final(out)@ == old(out)@ + tree_text(self.view(), depth as nat),
        decreases self,
    {
        let ghost o = out@;
        match self {
            AST::Char(c) => {
                push_spaces(out, depth);
                push_text(out, "└─Char(");
                out.push(*c);
                push_text(out, ")\n");
            },
            AST::Dot => {
                push_spaces(out, depth);
                push_text(out, "└─Dot\n");
            },
            AST::Plus(e) => {
                push_head(out, depth);
                push_text(out, "Plus\n");
                (**e).fmt_with_indent(out, depth + 2);
            },
            AST::Star(e) => {
                push_head(out, depth);
                push_text(out, "Star\n");
                (**e).fmt_with_indent(out, depth + 2);
            },
            AST::Question(e) => {
                push_head(out, depth);
                push_text(out, "Question\n");
                (**e).fmt_with_indent(out, depth + 2);
            },
            AST::Or(lhs, rhs) => {
                push_head(out, depth);
                push_text(out, "Or\n");
                (**lhs).fmt_with_indent(out, depth + 2);
                (**rhs).fmt_with_indent(out, depth);
            },
            AST::Concat(nodes) => {
                let ghost s = views(nodes@);
                proof {
                    lemma_views(nodes@);
                    assert(s.subrange(0, 0) =~= Seq::<Re>::empty());
                }
                push_head(out, depth);
                push_text(out, "Seq\n");
                let ghost o2 = out@;
                let mut i: usize = 0;
                while i < nodes.len()
                    invariant
                        i <= nodes@.len(),
                        s == views(nodes@),
                        s.len() == nodes@.len(),
                        forall|j: int| 0 <= j < nodes@.len() ==> #[trigger] s[j] == nodes@[j].view(),
                        self.view() == Re::Concat(s),
                        (*self)->Concat_0 == *nodes,
                        depth + 2 * height(self.view()) <= usize::MAX,
                        out@ == o2 + tree_seq_text(s.subrange(0, i as int), (depth + 2) as nat),
                    decreases nodes@.len() - i,
                {
                    proof {
                        let p = s.subrange(0, i as int + 1);
                        assert(p.subrange(0, i as int) =~= s.subrange(0, i as int));
                        assert(p[i as int] == s[i as int]);
                        lemma_height_seq(s, i as int);
                        assert(decreases_to!(*self => (*self)->Concat_0));
                        assert(decreases_to!((*self)->Concat_0 => (*self)->Concat_0@));
                        assert(decreases_to!((*self)->Concat_0@ => nodes@[i as int]));
                    }
                    nodes[i].fmt_with_indent(out, depth + 2);
                    i = i + 1;
                }
                proof {
                    assert(s.subrange(0, s.len() as int) =~= s);
                }
            },
        }
        proof {
            assert(out@ =~= o + tree_text(self.view(), depth as nat));
        }
    }

    /// The tree drawing of this node, one node per line.
    pub fn render_tree(&self) -> (r: Vec<char>)
        requires
            2 * height(self.view()) <= usize::MAX,
        ensures
            r@ == tree_text(self.view(), 0),
    {
        let mut out: Vec<char> = Vec::new();
        self.fmt_with_indent(&mut out, 0);
        proof {
            assert(out@ =~= tree_text(self.view(), 0));
        }
        out
    }
}

} // verus!
