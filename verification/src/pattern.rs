use vstd::prelude::*;
use crate::CONCAT_MARKER;

verus! {

/// A concatenation marker belongs between `prev` and `cur` exactly when
/// `prev` does not open a group or start a union, and `cur` is neither a
/// postfix quantifier nor a union bar nor a closing parenthesis.
pub open spec fn needs_marker(prev: char, cur: char) -> bool {
    !(prev == '(' || prev == '|') && !(cur == '*' || cur == '?' || cur == '+' || cur == '|' || cur
        == ')')
}

/// The tail of the preprocessed pattern: `s` rewritten with markers, knowing
/// that `prev` was the token just before `s`.
pub open spec fn spec_insert_concat_from(s: Seq<char>, prev: char) -> Seq<char>
    decreases s.len(),
{
    if s.len() == 0 {
        Seq::empty()
    } else {
        (if needs_marker(prev, s.first()) {
            seq![CONCAT_MARKER, s.first()]
        } else {
            seq![s.first()]
        }) + spec_insert_concat_from(s.drop_first(), s.first())
    }
}

/// The pattern with an explicit concatenation marker inserted between every
/// implicitly concatenated pair of tokens.
pub open spec fn spec_insert_concat(s: Seq<char>) -> Seq<char> {
    if s.len() == 0 {
        Seq::empty()
    } else {
        seq![s.first()] + spec_insert_concat_from(s.drop_first(), s.first())
    }
}

/// Relies on String::push: the character is appended to the end of the
/// string.
#[verifier::external_body]
fn push_char(s: &mut String, c: char)
    ensures
        final(s)@ == old(s)@.push(c),
{
    s.push(c);
}

fn marker_needed(prev: char, cur: char) -> (r: bool)
    ensures
        r == needs_marker(prev, cur),
{
    !(prev == '(' || prev == '|') && !(cur == '*' || cur == '?' || cur == '+' || cur == '|' || cur
        == ')')
}

/// Rewrite a pattern so that every implicit concatenation of adjacent tokens
/// carries an explicit marker, leaving all other tokens as they are.
pub fn insert_explicit_concat_operator(pattern: &str) -> (out: String)
    ensures
        out@ == spec_insert_concat(pattern@),
{
    let mut output = String::new();
    let mut prev: Option<char> = None;
    let n = pattern.unicode_len();
    for i in 0..n
        invariant
            n == pattern@.len(),
            match prev {
                None => i == 0 && output@ == Seq::<char>::empty(),
                Some(p) => 0 < i <= n && p == pattern@[i - 1] && output@
                    + spec_insert_concat_from(pattern@.skip(i as int), p) == spec_insert_concat(
                    pattern@,
                ),
            },
    {
        let token = pattern.get_char(i);
        proof {
            assert(pattern@.skip(i as int).first() == token);
            assert(pattern@.skip(i as int).drop_first() =~= pattern@.skip(i as int + 1));
        }
        match prev {
            Some(p) => {
                if marker_needed(p, token) {
                    push_char(&mut output, CONCAT_MARKER);
                }
            },
            None => {
                proof {
                    assert(pattern@.skip(0) =~= pattern@);
                }
            },
        }
        push_char(&mut output, token);
        prev = Some(token);
        proof {
            assert(output@ + spec_insert_concat_from(pattern@.skip(i as int + 1), token)
                =~= spec_insert_concat(pattern@));
        }
    }
    proof {
        if n > 0 {
            assert(spec_insert_concat_from(pattern@.skip(n as int), pattern@[n - 1])
                == Seq::<char>::empty());
            assert(output@ =~= spec_insert_concat(pattern@));
        }
    }
    output
}

/// Operator precedence: union binds loosest, the concatenation marker sits
/// in the middle, postfix quantifiers bind tightest.
pub open spec fn spec_precedence(c: char) -> int {
    if c == '|' {
        0
    } else if c == CONCAT_MARKER {
        1
    } else {
        2
    }
}

pub fn precedence(c: char) -> (p: u8)
    ensures
        p as int == spec_precedence(c),
{
    if c == '|' {
        0
    } else if c == '\0' {
        1
    } else {
        2
    }
}

/// The tokens treated as operators by the postfix converter.
pub open spec fn is_operator(c: char) -> bool {
    c == CONCAT_MARKER || c == '|' || c == '*' || c == '?' || c == '+'
}

fn operator(c: char) -> (r: bool)
    ensures
        r == is_operator(c),
{
    c == '\0' || c == '|' || c == '*' || c == '?' || c == '+'
}

/// The operators popped for a closing parenthesis: everything above the
/// nearest open parenthesis, topmost first.
pub open spec fn popped_for_paren(stack: Seq<char>) -> Seq<char>
    decreases stack.len(),
{
    if stack.len() == 0 {
        Seq::empty()
    } else if stack.last() == '(' {
        Seq::empty()
    } else {
        seq![stack.last()] + popped_for_paren(stack.drop_last())
    }
}

/// The operator stack after a closing parenthesis: the nearest open
/// parenthesis and everything above it are gone.
pub open spec fn stack_after_paren(stack: Seq<char>) -> Seq<char>
    decreases stack.len(),
{
    if stack.len() == 0 {
        Seq::empty()
    } else if stack.last() == '(' {
        stack.drop_last()
    } else {
        stack_after_paren(stack.drop_last())
    }
}

/// The operators popped before an operator of precedence `p` is pushed:
/// every operator above the nearest open parenthesis whose precedence is at
/// least `p`, topmost first.
pub open spec fn popped_for_op(stack: Seq<char>, p: int) -> Seq<char>
    decreases stack.len(),
{
    if stack.len() == 0 {
        Seq::empty()
    } else if stack.last() == '(' || spec_precedence(stack.last()) < p {
        Seq::empty()
    } else {
        seq![stack.last()] + popped_for_op(stack.drop_last(), p)
    }
}

/// The operator stack left after those pops.
pub open spec fn stack_after_op(stack: Seq<char>, p: int) -> Seq<char>
    decreases stack.len(),
{
    if stack.len() == 0 {
        Seq::empty()
    } else if stack.last() == '(' || spec_precedence(stack.last()) < p {
        stack
    } else {
        stack_after_op(stack.drop_last(), p)
    }
}

/// One shunting-yard run over `tokens` with the given operator stack and
/// output so far; at the end the remaining operators drain to the output,
/// topmost first.
pub open spec fn spec_shunt(tokens: Seq<char>, stack: Seq<char>, out: Seq<char>) -> Seq<char>
    decreases tokens.len(),
{
    if tokens.len() == 0 {
        out + stack.reverse()
    } else {
        let t = tokens.first();
        let rest = tokens.drop_first();
        if t == '(' {
            spec_shunt(rest, stack.push(t), out)
        } else if t == ')' {
            spec_shunt(rest, stack_after_paren(stack), out + popped_for_paren(stack))
        } else if is_operator(t) {
            spec_shunt(
                rest,
                stack_after_op(stack, spec_precedence(t)).push(t),
                out + popped_for_op(stack, spec_precedence(t)),
            )
        } else {
            spec_shunt(rest, stack, out.push(t))
        }
    }
}

/// The postfix form of a preprocessed pattern.
pub open spec fn spec_to_postfix(tokens: Seq<char>) -> Seq<char> {
    spec_shunt(tokens, Seq::empty(), Seq::empty())
}

/// Convert a preprocessed pattern from infix to postfix order by the
/// shunting-yard algorithm: literals pass through, operators wait on a stack
/// until an operator of lower precedence, a parenthesis, or the end of the
/// input releases them.
pub fn to_postfix(pattern: &str) -> (out: String)
    ensures
        out@ == spec_to_postfix(pattern@),
{
    let mut output = String::new();
    let mut op_stack: Vec<char> = Vec::new();
    let n = pattern.unicode_len();
    proof {
        assert(pattern@.skip(0) =~= pattern@);
        assert(output@ =~= Seq::<char>::empty());
        assert(op_stack@ =~= Seq::<char>::empty());
    }
    for i in 0..n
        invariant
            n == pattern@.len(),
            spec_shunt(pattern@.skip(i as int), op_stack@, output@) == spec_to_postfix(pattern@),
    {
        let token = pattern.get_char(i);
        proof {
            assert(pattern@.skip(i as int).first() == token);
            assert(pattern@.skip(i as int).drop_first() =~= pattern@.skip(i as int + 1));
        }
        if token == '(' {
            op_stack.push(token);
        } else if token == ')' {
            let ghost out_goal = output@ + popped_for_paren(op_stack@);
            let ghost stack_goal = stack_after_paren(op_stack@);
            loop
                invariant
                    out_goal == output@ + popped_for_paren(op_stack@),
                    stack_goal == stack_after_paren(op_stack@),
                ensures
                    out_goal == output@ + popped_for_paren(op_stack@),
                    stack_goal == stack_after_paren(op_stack@),
                    op_stack@.len() == 0 || op_stack@.last() == '(',
                decreases op_stack@.len(),
            {
                if op_stack.len() == 0 {
                    break ;
                }
                let top = op_stack[op_stack.len() - 1];
                if top == '(' {
                    break ;
                }
                let ghost stack_old = op_stack@;
                op_stack.pop();
                push_char(&mut output, top);
                proof {
                    assert(stack_old.last() == top);
                    assert(op_stack@ =~= stack_old.drop_last());
                    assert(popped_for_paren(stack_old) == seq![top] + popped_for_paren(
                        stack_old.drop_last(),
                    ));
                    assert(out_goal =~= output@ + popped_for_paren(op_stack@));
                }
            }
            let ghost stack_x = op_stack@;
            if op_stack.len() > 0 {
                op_stack.pop();
            }
            proof {
                assert(popped_for_paren(stack_x) =~= Seq::<char>::empty());
                assert(output@ == out_goal);
                if stack_x.len() == 0 {
                    assert(op_stack@ =~= stack_goal);
                } else {
                    assert(stack_after_paren(stack_x) == stack_x.drop_last());
                    assert(op_stack@ =~= stack_goal);
                }
            }
        } else if operator(token) {
            let p = precedence(token);
            let ghost out_goal = output@ + popped_for_op(op_stack@, p as int);
            let ghost stack_goal = stack_after_op(op_stack@, p as int);
            loop
                invariant
                    p as int == spec_precedence(token),
                    out_goal == output@ + popped_for_op(op_stack@, p as int),
                    stack_goal == stack_after_op(op_stack@, p as int),
                ensures
                    out_goal == output@ + popped_for_op(op_stack@, p as int),
                    stack_goal == stack_after_op(op_stack@, p as int),
                    op_stack@.len() == 0 || op_stack@.last() == '(' || spec_precedence(
                        op_stack@.last(),
                    ) < p as int,
                decreases op_stack@.len(),
            {
                if op_stack.len() == 0 {
                    break ;
                }
                let top = op_stack[op_stack.len() - 1];
                if top == '(' || precedence(top) < p {
                    break ;
                }
                let ghost stack_old = op_stack@;
                op_stack.pop();
                push_char(&mut output, top);
                proof {
                    assert(stack_old.last() == top);
                    assert(op_stack@ =~= stack_old.drop_last());
                    assert(popped_for_op(stack_old, p as int) == seq![top] + popped_for_op(
                        stack_old.drop_last(),
                        p as int,
                    ));
                    assert(out_goal =~= output@ + popped_for_op(op_stack@, p as int));
                }
            }
            let ghost stack_x = op_stack@;
            op_stack.push(token);
            proof {
                assert(popped_for_op(stack_x, p as int) =~= Seq::<char>::empty());
                assert(stack_after_op(stack_x, p as int) == stack_x);
                assert(output@ == out_goal);
                assert(op_stack@ =~= stack_goal.push(token));
            }
        } else {
            push_char(&mut output, token);
        }
    }
    proof {
        assert(pattern@.skip(n as int) =~= Seq::<char>::empty());
    }
    while op_stack.len() > 0
        invariant
            output@ + op_stack@.reverse() == spec_to_postfix(pattern@),
        decreases op_stack@.len(),
    {
        let top = op_stack[op_stack.len() - 1];
        op_stack.pop();
        push_char(&mut output, top);
        proof {
            assert(output@ + op_stack@.reverse() =~= spec_to_postfix(pattern@));
        }
    }
    proof {
        assert(output@ =~= spec_to_postfix(pattern@));
    }
    output
}

} // verus!
