use vstd::prelude::*;

use crate::lexer::Lexeme;

verus! {

/// One node of a program tree: an operation, or a loop that owns its body.
#[derive(Debug, PartialEq, Eq)]
pub enum Instruction {
    IncrPtr,
    DecrPtr,
    Incr,
    Decr,
    Write,
    Read,
    Loop(Vec<Instruction>),
}

/// A malformed nesting of loops, with the index of the offending lexeme.
#[derive(Clone, Copy, Debug, PartialEq, Eq, Structural)]
pub enum ParseError {
    /// A loop end with no open loop before it.
    UnmatchedLoopEnd(usize),
    /// A loop begin that is never closed.
    UnmatchedLoopBegin(usize),
}

/// How a lexeme changes the loop nesting depth.
pub open spec fn delta(t: Lexeme) -> int {
    match t {
        Lexeme::LoopBegin => 1,
        Lexeme::LoopEnd => -1,
        _ => 0,
    }
}

/// The nesting depth after `s`: loop begins minus loop ends.
pub open spec fn depth(s: Seq<Lexeme>) -> int
    decreases s.len(),
{
    if s.len() == 0 {
        0
    } else {
        depth(s.drop_last()) + delta(s.last())
    }
}

/// No prefix of the first `n` lexemes of `s` closes more loops than it opens.
pub open spec fn never_below_zero(s: Seq<Lexeme>, n: int) -> bool {
    forall|k: int| 0 <= k <= n ==> #[trigger] depth(s.take(k)) >= 0
}

/// Every loop begin of `s` has a matching loop end and the other way round.
pub open spec fn balanced(s: Seq<Lexeme>) -> bool {
    never_below_zero(s, s.len() as int) && depth(s) == 0
}

/// `i` is the first loop end of `s` that closes no open loop.
pub open spec fn is_unmatched_end(s: Seq<Lexeme>, i: int) -> bool {
    &&& 0 <= i < s.len()
    &&& never_below_zero(s, i)
    &&& depth(s.take(i + 1)) < 0
}

/// No loop end of `s` is unmatched, and `j` begins the outermost loop that is
/// still open at the end of `s`.
pub open spec fn is_unmatched_begin(s: Seq<Lexeme>, j: int) -> bool {
    &&& 0 <= j < s.len()
    &&& never_below_zero(s, s.len() as int)
    &&& s[j] == Lexeme::LoopBegin
    &&& depth(s.take(j)) == 0
    &&& forall|k: int| j < k <= s.len() ==> #[trigger] depth(s.take(k)) > 0
}

/// The lexeme of an operation (`flatten` spells a loop by its own rule).
pub open spec fn leaf_lexeme(i: Instruction) -> Lexeme {
    match i {
        Instruction::IncrPtr => Lexeme::IncrPtr,
        Instruction::DecrPtr => Lexeme::DecrPtr,
        Instruction::Incr => Lexeme::Incr,
        Instruction::Decr => Lexeme::Decr,
        Instruction::Write => Lexeme::Write,
        Instruction::Read => Lexeme::Read,
        Instruction::Loop(_) => Lexeme::LoopBegin,
    }
}

/// The lexemes that spell a program tree: each loop as its begin, its body
/// and its end.
pub open spec fn flatten(p: Seq<Instruction>) -> Seq<Lexeme>
    decreases p,
{
    if p.len() == 0 {
        Seq::empty()
    } else {
        let rest = flatten(p.drop_last());
        match p.last() {
            Instruction::Loop(b) => rest + seq![Lexeme::LoopBegin] + flatten(b@) + seq![
                Lexeme::LoopEnd,
            ],
            i => rest.push(leaf_lexeme(i)),
        }
    }
}

proof fn lemma_depth_append(x: Seq<Lexeme>, y: Seq<Lexeme>)
    ensures
        depth(x + y) == depth(x) + depth(y),
    decreases y.len(),
{
    if y.len() == 0 {
        assert(x + y =~= x);
    } else {
        lemma_depth_append(x, y.drop_last());
        assert((x + y).drop_last() =~= x + y.drop_last());
    }
}

/// The lexemes of `v` from `lo` up to `hi`.
fn span(v: &Vec<Lexeme>, lo: usize, hi: usize) -> (r: Vec<Lexeme>)
    requires
        lo <= hi <= v.len(),
    ensures
        r@ == v@.subrange(lo as int, hi as int),
{
    let mut r: Vec<Lexeme> = Vec::new();
    let mut k: usize = lo;
    while k < hi
        invariant
            lo <= k <= hi <= v.len(),
            r@ == v@.subrange(lo as int, k as int),
        decreases hi - k,
    {
        r.push(v[k]);
        k = k + 1;
        assert(r@ =~= v@.subrange(lo as int, k as int));
    }
    r
}

/// Builds the program tree of a lexeme sequence. Each loop becomes one
/// `Loop` node whose body is built from the lexemes strictly between its
/// begin and its matching end; matching goes by nesting depth.
pub fn parser(lexemes: Vec<Lexeme>) -> (r: Result<Vec<Instruction>, ParseError>)
    ensures
        match r {
            Ok(p) => balanced(lexemes@) && flatten(p@) == lexemes@,
            Err(ParseError::UnmatchedLoopEnd(i)) => is_unmatched_end(lexemes@, i as int),
            Err(ParseError::UnmatchedLoopBegin(j)) => is_unmatched_begin(lexemes@, j as int),
        },
        balanced(lexemes@) <==> r is Ok,
        forall|i: int|
            is_unmatched_end(lexemes@, i) ==> r == Err::<Vec<Instruction>, ParseError>(
                ParseError::UnmatchedLoopEnd(i as usize),
            ),
        forall|j: int|
            is_unmatched_begin(lexemes@, j) ==> r == Err::<Vec<Instruction>, ParseError>(
                ParseError::UnmatchedLoopBegin(j as usize),
            ),
    decreases lexemes.len(),
{
    let ghost s = lexemes@;
    let n = lexemes.len();
    let mut instructions: Vec<Instruction> = Vec::new();
    let mut loop_stack: usize = 0;
    let mut loop_start: usize = 0;
    let mut i: usize = 0;
    proof {
        assert(s.take(0) =~= Seq::<Lexeme>::empty());
    }
    while i < n
        invariant
            n == lexemes.len(),
            s == lexemes@,
            i <= n,
            loop_stack <= i,
            never_below_zero(s, i as int),
            loop_stack == depth(s.take(i as int)),
            loop_stack == 0 ==> flatten(instructions@) == s.take(i as int),
            loop_stack > 0 ==> {
                &&& loop_start < i
                &&& flatten(instructions@) == s.take(loop_start as int)
                &&& s[loop_start as int] == Lexeme::LoopBegin
                &&& depth(s.take(loop_start as int)) == 0
                &&& forall|k: int| loop_start < k <= i ==> #[trigger] depth(s.take(k)) > 0
            },
        decreases n - i,
    {
        let op = lexemes[i];
        proof {
            assert(s.take(i + 1).drop_last() =~= s.take(i as int));
            assert(s.take(i + 1).last() == op);
        }
        if loop_stack == 0 {
            let instr = match op {
                Lexeme::IncrPtr => Some(Instruction::IncrPtr),
                Lexeme::DecrPtr => Some(Instruction::DecrPtr),
                Lexeme::Incr => Some(Instruction::Incr),
                Lexeme::Decr => Some(Instruction::Decr),
                Lexeme::Read => Some(Instruction::Read),
                Lexeme::Write => Some(Instruction::Write),
                Lexeme::LoopBegin => {
                    loop_start = i;
                    loop_stack = 1;
                    None
                },
                Lexeme::LoopEnd => {
                    return Err(ParseError::UnmatchedLoopEnd(i));
                },
            };
            match instr {
                Some(instr) => {
                    let ghost old_instructions = instructions@;
                    instructions.push(instr);
                    proof {
                        assert(instructions@.drop_last() =~= old_instructions);
                        assert(flatten(instructions@) =~= s.take(i + 1));
                    }
                },
                None => {},
            }
        } else {
            match op {
                Lexeme::LoopBegin => loop_stack = loop_stack + 1,
                Lexeme::LoopEnd => {
                    loop_stack = loop_stack - 1;
                    if loop_stack == 0 {
                        let ghost sub = s.subrange(loop_start + 1, i as int);
                        let ghost head = s.take(loop_start + 1);
                        proof {
                            assert(head.drop_last() =~= s.take(loop_start as int));
                            assert(depth(head) == 1);
                            assert forall|m: int| 0 <= m <= sub.len() implies #[trigger] depth(
                                sub.take(m),
                            ) >= 0 by {
                                lemma_depth_append(head, sub.take(m));
                                assert(head + sub.take(m) =~= s.take(loop_start + 1 + m));
                                assert(depth(s.take(loop_start + 1 + m)) > 0);
                            }
                            lemma_depth_append(head, sub);
                            assert(head + sub =~= s.take(i as int));
                            assert(sub.take(sub.len() as int) =~= sub);
                        }
                        let body = match parser(span(&lexemes, loop_start + 1, i)) {
                            Ok(body) => body,
                            Err(e) => {
                                return Err(e);
                            },
                        };
                        let ghost old_instructions = instructions@;
                        instructions.push(Instruction::Loop(body));
                        proof {
                            assert(instructions@.drop_last() =~= old_instructions);
                            assert(flatten(instructions@) =~= s.take(i + 1));
                        }
                    }
                },
                _ => {},
            }
        }
        i = i + 1;
    }
    proof {
        assert(s.take(n as int) =~= s);
    }
    if loop_stack != 0 {
        return Err(ParseError::UnmatchedLoopBegin(loop_start));
    }
    Ok(instructions)
}

/// The number of lexemes that spell a program tree.
pub open spec fn size(p: Seq<Instruction>) -> nat
    decreases p,
{
    if p.len() == 0 {
        0
    } else {
        let rest = size(p.drop_last());
        match p.last() {
            Instruction::Loop(b) => rest + 2 + size(b@),
            _ => rest + 1,
        }
    }
}

proof fn lemma_flatten_size_balanced(p: Seq<Instruction>)
    ensures
        flatten(p).len() == size(p),
        balanced(flatten(p)),
    decreases p,
{
    if p.len() > 0 {
        let q = p.drop_last();
        lemma_flatten_size_balanced(q);
        let fq = flatten(q);
        let f = flatten(p);
        match p.last() {
            Instruction::Loop(b) => {
                assert(decreases_to!(p => p[p.len() - 1]));
                lemma_flatten_size_balanced(b@);
                let fb = flatten(b@);
                let open = fq.push(Lexeme::LoopBegin);
                assert(f =~= open + fb + seq![Lexeme::LoopEnd]);
                assert(open.drop_last() =~= fq);
                assert(depth(open) == 1);
                lemma_depth_append(open + fb, seq![Lexeme::LoopEnd]);
                lemma_depth_append(open, fb);
                assert(seq![Lexeme::LoopEnd].drop_last() =~= Seq::<Lexeme>::empty());
                assert(depth(Seq::<Lexeme>::empty()) == 0);
                assert(depth(seq![Lexeme::LoopEnd]) == -1);
                assert(depth(f) == 0);
                assert forall|k: int| 0 <= k <= f.len() implies #[trigger] depth(f.take(k)) >= 0 by {
                    if k <= fq.len() {
                        assert(f.take(k) =~= fq.take(k));
                    } else if k <= fq.len() + 1 + fb.len() {
                        let m = k - fq.len() - 1;
                        assert(f.take(k) =~= open + fb.take(m));
                        lemma_depth_append(open, fb.take(m));
                        assert(depth(fb.take(m)) >= 0);
                    } else {
                        assert(f.take(k) =~= f);
                    }
                }
            },
            i => {
                assert(f.drop_last() =~= fq);
                assert forall|k: int| 0 <= k <= f.len() implies #[trigger] depth(f.take(k)) >= 0 by {
                    if k <= fq.len() {
                        assert(f.take(k) =~= fq.take(k));
                    } else {
                        assert(f.take(k) =~= f);
                    }
                }
            },
        }
    } else {
        assert(flatten(p) =~= Seq::<Lexeme>::empty());
        assert forall|k: int| 0 <= k <= flatten(p).len() implies #[trigger] depth(
            flatten(p).take(k),
        ) >= 0 by {
            assert(flatten(p).take(k) =~= Seq::<Lexeme>::empty());
        }
    }
}

/// In a lexeme sequence that spells a program tree, each loop node of the
/// tree is spelled by a loop begin at the node's position, its body's
/// lexemes, and the loop end that matches that begin; so begin, body and end
/// make up exactly the span between the matching pair.
pub proof fn lemma_loop_spans(s: Seq<Instruction>, t: Seq<Lexeme>, k: int)
    requires
        flatten(s) == t,
        0 <= k < s.len(),
        s[k] is Loop,
    ensures
        ({
            let b = s[k]->Loop_0@;
            let a = size(s.take(k)) as int;
            let e = a + size(b) + 1;
            &&& balanced(t)
            &&& e < t.len()
            &&& t[a] == Lexeme::LoopBegin
            &&& t.subrange(a + 1, e) == flatten(b)
            &&& t[e] == Lexeme::LoopEnd
            &&& depth(t.subrange(a, e + 1)) == 0
            &&& forall|m: int| a < m <= e ==> #[trigger] depth(t.subrange(a, m)) > 0
        }),
    decreases s.len(),
{
    lemma_flatten_size_balanced(s);
    if k < s.len() - 1 {
        let q = s.drop_last();
        lemma_loop_spans(q, flatten(q), k);
        assert(q.take(k) =~= s.take(k));
        assert(q[k] == s[k]);
        lemma_flatten_size_balanced(q);
        let fq = flatten(q);
        assert forall|m: int| 0 <= m <= fq.len() implies #[trigger] t.subrange(0, m) == fq.take(m) by {
            assert(t.subrange(0, m) =~= fq.take(m));
        }
        let b = s[k]->Loop_0@;
        let a = size(s.take(k)) as int;
        let e = a + size(b) + 1;
        assert(t.subrange(a + 1, e) =~= fq.subrange(a + 1, e));
        assert(t.subrange(a, e + 1) =~= fq.subrange(a, e + 1));
        assert forall|m: int| a < m <= e implies #[trigger] depth(t.subrange(a, m)) > 0 by {
            assert(t.subrange(a, m) =~= fq.subrange(a, m));
        }
    } else {
        let q = s.drop_last();
        assert(q =~= s.take(k));
        lemma_flatten_size_balanced(q);
        let b = s[k]->Loop_0@;
        assert(decreases_to!(s => s[k]));
        lemma_flatten_size_balanced(b);
        let fb = flatten(b);
        let a = size(q) as int;
        let e = a + size(b) + 1;
        assert(t =~= flatten(q) + seq![Lexeme::LoopBegin] + fb + seq![Lexeme::LoopEnd]);
        assert(t.subrange(a + 1, e) =~= fb);
        let open = seq![Lexeme::LoopBegin];
        assert(open.drop_last() =~= Seq::<Lexeme>::empty());
        assert(depth(Seq::<Lexeme>::empty()) == 0);
        assert(depth(open) == 1);
        assert(seq![Lexeme::LoopEnd].drop_last() =~= Seq::<Lexeme>::empty());
        assert(depth(seq![Lexeme::LoopEnd]) == -1);
        assert(t.subrange(a, e + 1) =~= open + fb + seq![Lexeme::LoopEnd]);
        lemma_depth_append(open + fb, seq![Lexeme::LoopEnd]);
        lemma_depth_append(open, fb);
        assert(seq![Lexeme::LoopEnd].drop_last() =~= Seq::<Lexeme>::empty());
        assert forall|m: int| a < m <= e implies #[trigger] depth(t.subrange(a, m)) > 0 by {
            assert(t.subrange(a, m) =~= open + fb.take(m - a - 1));
            lemma_depth_append(open, fb.take(m - a - 1));
        }
    }
}

proof fn lemma_depth_no_loops(t: Seq<Lexeme>)
    requires
        forall|k: int| 0 <= k < t.len() ==> t[k] != Lexeme::LoopBegin && t[k] != Lexeme::LoopEnd,
    ensures
        depth(t) == 0,
    decreases t.len(),
{
    if t.len() > 0 {
        lemma_depth_no_loops(t.drop_last());
    }
}

proof fn lemma_depth_no_ends(t: Seq<Lexeme>)
    requires
        forall|k: int| 0 <= k < t.len() ==> t[k] != Lexeme::LoopEnd,
    ensures
        depth(t) >= 0,
    decreases t.len(),
{
    if t.len() > 0 {
        lemma_depth_no_ends(t.drop_last());
    }
}

/// A loop end with no loop lexeme before it is the unmatched loop end of the
/// sequence, wherever it stands and whatever follows it.
pub proof fn lemma_lone_end(x: Seq<Lexeme>, y: Seq<Lexeme>)
    requires
        forall|k: int| 0 <= k < x.len() ==> x[k] != Lexeme::LoopBegin && x[k] != Lexeme::LoopEnd,
    ensures
        is_unmatched_end(x + seq![Lexeme::LoopEnd] + y, x.len() as int),
{
    let s = x + seq![Lexeme::LoopEnd] + y;
    assert forall|k: int| 0 <= k <= x.len() implies #[trigger] depth(s.take(k)) >= 0 by {
        assert(s.take(k) =~= x.take(k));
        lemma_depth_no_loops(x.take(k));
    }
    assert(s.take(x.len() + 1 as int).drop_last() =~= x);
    lemma_depth_no_loops(x);
}

/// A loop begin after a balanced prefix and with no loop end after it is the
/// unmatched loop begin of the sequence, wherever it stands.
pub proof fn lemma_lone_begin(x: Seq<Lexeme>, y: Seq<Lexeme>)
    requires
        balanced(x),
        forall|k: int| 0 <= k < y.len() ==> y[k] != Lexeme::LoopEnd,
    ensures
        is_unmatched_begin(x + seq![Lexeme::LoopBegin] + y, x.len() as int),
{
    let s = x + seq![Lexeme::LoopBegin] + y;
    let open = x.push(Lexeme::LoopBegin);
    assert(open.drop_last() =~= x);
    assert(depth(open) == 1);
    assert(s.take(x.len() as int) =~= x);
    assert forall|k: int| x.len() < k <= s.len() implies #[trigger] depth(s.take(k)) > 0 by {
        let m = k - x.len() - 1;
        assert(s.take(k) =~= open + y.take(m));
        lemma_depth_append(open, y.take(m));
        lemma_depth_no_ends(y.take(m));
    }
    assert forall|k: int| 0 <= k <= s.len() implies #[trigger] depth(s.take(k)) >= 0 by {
        if k <= x.len() {
            assert(s.take(k) =~= x.take(k));
        } else {
            assert(depth(s.take(k)) > 0);
        }
    }
}

} // verus!
