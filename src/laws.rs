//! Properties that relate the stages of the pipeline.
use vstd::prelude::*;
use crate::ast::{ExprM, Program, StmtM};
use crate::codegen::{block_text, escape_single_quoted, header, program_text, value, var_name};

verus! {

/// Generation is a function of the program: two programs with the same
/// model, in particular one program generated twice, give the same text.
pub proof fn lemma_generate_deterministic(p1: &Program, p2: &Program)
    requires
        p1.model() == p2.model(),
    ensures
        program_text(p1.model()) == program_text(p2.model()),
{
}

/// Number of lines of `s` that hold a `=`, `seen` telling whether the line
/// in progress already holds one.
pub open spec fn lines_with_equals_from(s: Seq<char>, seen: bool) -> nat
    decreases s.len(),
{
    if s.len() == 0 {
        if seen {
            1
        } else {
            0
        }
    } else if s[0] == '\n' {
        (if seen {
            1nat
        } else {
            0nat
        }) + lines_with_equals_from(s.drop_first(), false)
    } else {
        lines_with_equals_from(s.drop_first(), seen || s[0] == '=')
    }
}

/// Number of lines of `s` that hold a `=`.
pub open spec fn lines_with_equals(s: Seq<char>) -> nat {
    lines_with_equals_from(s, false)
}

pub open spec fn no_newline(s: Seq<char>) -> bool {
    forall|i: int| 0 <= i < s.len() ==> s[i] != '\n'
}

/// Every statement is an assignment whose name and value text fit on one line.
pub open spec fn single_line_assignments(p: Seq<StmtM>) -> bool {
    forall|i: int|
        0 <= i < p.len() ==> {
            &&& #[trigger] p[i] is Assignment
            &&& no_newline(p[i]->Assignment_name)
            &&& value(p[i]->Assignment_value) is Some
            &&& no_newline(value(p[i]->Assignment_value)->Some_0)
        }
}

/// The line an assignment generates, without its newline.
pub open spec fn assignment_line(name: Seq<char>, v: ExprM) -> Seq<char> {
    var_name(name) + "="@ + value(v)->Some_0
}

/// The lines of the first `n` assignments of `p`, each with its newline.
pub open spec fn assignment_lines(p: Seq<StmtM>, n: int) -> Seq<char>
    decreases n,
{
    if n <= 0 || n > p.len() {
        seq![]
    } else {
        assignment_lines(p, n - 1) + assignment_line(p[n - 1]->Assignment_name, p[n - 1]->Assignment_value)
            + "\n"@
    }
}

proof fn lemma_count_concat(a: Seq<char>, b: Seq<char>, seen: bool)
    requires
        a.len() > 0,
        a.last() == '\n',
    ensures
        lines_with_equals_from(a + b, seen) == lines_with_equals_from(a, seen)
            + lines_with_equals_from(b, false),
    decreases a.len(),
{
    assert((a + b).drop_first() =~= a.drop_first() + b);
    assert((a + b)[0] == a[0]);
    if a.len() == 1 {
        assert(a[0] == '\n');
        assert(a.drop_first() =~= Seq::<char>::empty());
        assert(a.drop_first() + b =~= b);
        assert(lines_with_equals_from(a.drop_first(), false) == 0);
    } else {
        assert(a.drop_first().last() == '\n');
        lemma_count_concat(a.drop_first(), b, if a[0] == '\n' { false } else { seen || a[0] == '=' });
    }
}

proof fn lemma_count_line(w: Seq<char>, seen: bool)
    requires
        no_newline(w),
    ensures
        lines_with_equals_from(w + "\n"@, seen) == if seen || w.contains('=') {
            1nat
        } else {
            0nat
        },
    decreases w.len(),
{
    reveal_strlit("\n");
    if w.len() == 0 {
        assert(w + "\n"@ =~= seq!['\n']);
        assert(seq!['\n'].drop_first() =~= Seq::<char>::empty());
        assert(lines_with_equals_from(Seq::<char>::empty(), false) == 0);
        assert(seq!['\n'][0] == '\n');
        assert(!w.contains('='));
    } else {
        assert((w + "\n"@).drop_first() =~= w.drop_first() + "\n"@);
        assert((w + "\n"@)[0] == w[0]);
        assert(w[0] != '\n');
        assert(no_newline(w.drop_first()));
        lemma_count_line(w.drop_first(), seen || w[0] == '=');
        if w.drop_first().contains('=') {
            let k = choose|k: int| 0 <= k < w.drop_first().len() && w.drop_first()[k] == '=';
            assert(w[k + 1] == '=');
        }
        if w.contains('=') && w[0] != '=' {
            let k = choose|k: int| 0 <= k < w.len() && w[k] == '=';
            assert(w.drop_first()[k - 1] == '=');
        }
    }
}

proof fn lemma_header_count()
    ensures
        lines_with_equals(header()) == 0,
{
    reveal_strlit("#!/bin/sh\n# Generated by Shard\n\n");
    reveal_strlit("\n");
    let l1 = seq!['#', '!', '/', 'b', 'i', 'n', '/', 's', 'h'];
    let l2 = seq![
        '#', ' ', 'G', 'e', 'n', 'e', 'r', 'a', 't', 'e', 'd', ' ', 'b', 'y', ' ', 'S', 'h', 'a', 'r', 'd'
    ];
    let l3 = Seq::<char>::empty();
    assert(header() =~= (l1 + "\n"@) + ((l2 + "\n"@) + (l3 + "\n"@)));
    lemma_count_line(l1, false);
    lemma_count_line(l2, false);
    lemma_count_line(l3, false);
    assert(!l1.contains('='));
    assert(!l2.contains('='));
    lemma_count_concat(l2 + "\n"@, l3 + "\n"@, false);
    lemma_count_concat(l1 + "\n"@, (l2 + "\n"@) + (l3 + "\n"@), false);
}

proof fn lemma_assignment_block(p: Seq<StmtM>, n: int)
    requires
        0 <= n <= p.len(),
        single_line_assignments(p),
    ensures
        block_text(p, n, seq![]) == Some(assignment_lines(p, n)),
        lines_with_equals(assignment_lines(p, n)) == n,
        n > 0 ==> assignment_lines(p, n).last() == '\n',
    decreases n,
{
    reveal_strlit("\n");
    reveal_strlit("=");
    if n == 0 {
        assert(lines_with_equals(Seq::<char>::empty()) == 0);
    } else {
        lemma_assignment_block(p, n - 1);
        let s = p[n - 1];
        assert(s is Assignment);
        let w = assignment_line(s->Assignment_name, s->Assignment_value);
        assert(seq![] + var_name(s->Assignment_name) + "="@ =~= var_name(s->Assignment_name) + "="@);
        assert(no_newline(w)) by {
            reveal_strlit("__shard_");
            let nm = s->Assignment_name;
            let v = value(s->Assignment_value)->Some_0;
            assert forall|i: int| 0 <= i < w.len() implies w[i] != '\n' by {
                if i < 8 {
                } else if i < 8 + nm.len() {
                    assert(w[i] == nm[i - 8]);
                } else if i == 8 + nm.len() {
                } else {
                    assert(w[i] == v[i - 9 - nm.len()]);
                }
            }
        }
        assert(w.contains('=')) by {
            reveal_strlit("__shard_");
            assert(w[8 + s->Assignment_name.len() as int] == '=');
        }
        lemma_count_line(w, false);
        let ind = Seq::<char>::empty();
        assert(s == StmtM::Assignment { name: s->Assignment_name, value: s->Assignment_value });
        assert(crate::codegen::stmt_text(s, ind) == Some(w + "\n"@)) by {
            assert(ind + var_name(s->Assignment_name) + "="@ + value(s->Assignment_value)->Some_0
                + "\n"@ =~= w + "\n"@);
        }
        let prev = assignment_lines(p, n - 1);
        if n - 1 == 0 {
            assert(prev + (w + "\n"@) =~= w + "\n"@);
        } else {
            lemma_count_concat(prev, w + "\n"@, false);
        }
        assert(assignment_lines(p, n) =~= prev + (w + "\n"@));
    }
}

/// For a program made only of assignments, each on one line, the generated
/// text is the header followed by one line `__shard_<name>=<value>` per
/// assignment, in order, and exactly as many lines hold a `=` as there are
/// assignments.
pub proof fn lemma_assignments_only(p: Seq<StmtM>)
    requires
        single_line_assignments(p),
    ensures
        program_text(p) == Some(header() + assignment_lines(p, p.len() as int)),
        lines_with_equals(program_text(p)->Some_0) == p.len(),
{
    lemma_assignment_block(p, p.len() as int);
    lemma_header_count();
    let a = assignment_lines(p, p.len() as int);
    reveal_strlit("#!/bin/sh\n# Generated by Shard\n\n");
    lemma_count_concat(header(), a, false);
}

/// How a POSIX shell reads the inside of a word `'...'` produced by the
/// generator: `'\''` (close, escaped quote, reopen) stands for one quote, and
/// every other character stands for itself.
pub open spec fn read_single_quoted(t: Seq<char>) -> Seq<char>
    decreases t.len(),
{
    if t.len() == 0 {
        seq![]
    } else if t.len() >= 4 && t.subrange(t.len() - 4, t.len() as int) == seq!['\'', '\\', '\'', '\''] {
        read_single_quoted(t.subrange(0, t.len() - 4)).push('\'')
    } else {
        read_single_quoted(t.drop_last()).push(t.last())
    }
}

/// A string literal's content survives the generator's single quoting: the
/// shell reads back exactly the content.
pub proof fn lemma_single_quoting_round_trip(c: Seq<char>)
    ensures
        read_single_quoted(escape_single_quoted(c)) == c,
    decreases c.len(),
{
    if c.len() > 0 {
        let x = escape_single_quoted(c.drop_last());
        lemma_single_quoting_round_trip(c.drop_last());
        let t = escape_single_quoted(c);
        if c.last() == '\'' {
            assert(t =~= x + seq!['\'', '\\', '\'', '\'']);
            assert(t.subrange(0, t.len() - 4) =~= x);
            assert(t.subrange(t.len() - 4, t.len() as int) =~= seq!['\'', '\\', '\'', '\'']);
        } else {
            assert(t =~= x + seq![c.last()]);
            assert(t.drop_last() =~= x);
            if t.len() >= 4 {
                let tail = t.subrange(t.len() - 4, t.len() as int);
                assert(tail[3] == t.last());
                assert(tail != seq!['\'', '\\', '\'', '\'']);
            }
        }
        assert(c.drop_last().push(c.last()) =~= c);
    }
}

} // verus!
