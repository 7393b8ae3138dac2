//! The infix-to-postfix converter.
//!
//! A preprocessing pass inserts an explicit concatenation operator `.`
//! between adjacent atoms, then a shunting-yard pass reduces the infix
//! pattern to postfix character order with a two-stack algorithm: literals
//! go directly to the output, operators first pop every
//! higher-or-equal-precedence operator off the stack, `(` acts as a
//! barrier, and `)` pops down to its matching `(` and discards both.
//!
//! The spec functions state both passes as folds over the pattern; the
//! executable functions are proved to implement them exactly.

use vstd::prelude::*;

verus! {

/// Is `c` one of the five operator characters of the postfix alphabet?
pub open spec fn is_op(c: char) -> bool {
    c == '.' || c == '|' || c == '*' || c == '?' || c == '+'
}

/// Operator precedence, lowest to highest: alternation, concatenation,
/// repetition.
pub open spec fn prec(c: char) -> int {
    if c == '|' {
        0int
    } else if c == '.' {
        1int
    } else {
        2int
    }
}

/// May a concatenation operator stand before `c`? Not before a postfix
/// operator, an alternation bar, or a closing parenthesis.
pub open spec fn concat_blocked(c: char) -> bool {
    c == '*' || c == '?' || c == '+' || c == '|' || c == ')'
}

/// The explicit-concatenation pass from position `i` on: each character is
/// kept, and `.` is inserted after it unless it is `(` or `|`, it is the
/// last character, or the next character refuses a concatenation.
pub open spec fn explicit_concat_from(s: Seq<char>, i: int) -> Seq<char>
    decreases s.len() - i,
{
    if i < 0 || i >= s.len() {
        Seq::empty()
    } else {
        let emitted = if s[i] != '(' && s[i] != '|' && i < s.len() - 1 && !concat_blocked(
            s[i + 1],
        ) {
            seq![s[i], '.']
        } else {
            seq![s[i]]
        };
        emitted + explicit_concat_from(s, i + 1)
    }
}

/// The whole explicit-concatenation pass.
pub open spec fn spec_explicit_concat(s: Seq<char>) -> Seq<char> {
    explicit_concat_from(s, 0)
}

/// Pops every operator of precedence at least `prec(c)` off the operator
/// stack, stopping at a `(` barrier: the remaining stack and the popped
/// operators in pop order.
pub open spec fn pop_ge(stack: Seq<char>, c: char) -> (Seq<char>, Seq<char>)
    decreases stack.len(),
{
    if stack.len() == 0 || stack.last() == '(' || prec(stack.last()) < prec(c) {
        (stack, Seq::empty())
    } else {
        let rest = pop_ge(stack.drop_last(), c);
        (rest.0, seq![stack.last()] + rest.1)
    }
}

/// Pops operators down to the matching `(` and discards it: the remaining
/// stack and the popped operators in pop order. An unmatched `)` empties
/// the stack and is emitted into the output itself, where the automaton
/// builder rejects it — a pattern with a stray `)` must fail, as the
/// matching treatment of a leftover `(` is the final drain pushing it into
/// the output.
pub open spec fn pop_to_lparen(stack: Seq<char>) -> (Seq<char>, Seq<char>)
    decreases stack.len(),
{
    if stack.len() == 0 {
        (stack, seq![')'])
    } else if stack.last() == '(' {
        (stack.drop_last(), Seq::empty())
    } else {
        let rest = pop_to_lparen(stack.drop_last());
        (rest.0, seq![stack.last()] + rest.1)
    }
}

/// The shunting-yard pass from position `i` on, with the given operator
/// stack and output so far; at end of input the stack is drained into the
/// output, top first.
pub open spec fn shunt_from(s: Seq<char>, i: int, stack: Seq<char>, out: Seq<char>) -> Seq<char>
    decreases s.len() - i,
{
    if i < 0 || i >= s.len() {
        out + stack.reverse()
    } else {
        let c = s[i];
        if is_op(c) {
            let popped = pop_ge(stack, c);
            shunt_from(s, i + 1, popped.0.push(c), out + popped.1)
        } else if c == '(' {
            shunt_from(s, i + 1, stack.push(c), out)
        } else if c == ')' {
            let popped = pop_to_lparen(stack);
            shunt_from(s, i + 1, popped.0, out + popped.1)
        } else {
            shunt_from(s, i + 1, stack, out.push(c))
        }
    }
}

/// The whole shunting-yard pass.
pub open spec fn spec_to_postfix(s: Seq<char>) -> Seq<char> {
    shunt_from(s, 0, Seq::empty(), Seq::empty())
}

/// The running parenthesis depth of a pattern scanned left to right,
/// starting at `d`: the depth after the last character, or `None` as soon
/// as a `)` arrives at depth zero.
pub open spec fn scan_depth(s: Seq<char>, d: int) -> Option<int>
    decreases s.len(),
{
    if s.len() == 0 {
        Some(d)
    } else if s[0] == '(' {
        scan_depth(s.drop_first(), d + 1)
    } else if s[0] == ')' {
        if d > 0 {
            scan_depth(s.drop_first(), d - 1)
        } else {
            None
        }
    } else {
        scan_depth(s.drop_first(), d)
    }
}

/// The parentheses of the pattern are balanced: no prefix closes a group
/// that was never opened, and every opened group is closed.
pub open spec fn paren_balanced(s: Seq<char>) -> bool {
    scan_depth(s, 0) == Some(0int)
}

/// The number of `(` barriers on the operator stack.
pub open spec fn count_lp(st: Seq<char>) -> int
    decreases st.len(),
{
    if st.len() == 0 {
        0
    } else {
        count_lp(st.drop_last()) + if st.last() == '(' {
            1int
        } else {
            0int
        }
    }
}

proof fn lemma_count_lp_bounds(st: Seq<char>)
    ensures
        0 <= count_lp(st),
        count_lp(st) > 0 ==> st.contains('('),
    decreases st.len(),
{
    if st.len() > 0 {
        lemma_count_lp_bounds(st.drop_last());
        if count_lp(st) > 0 && st.last() != '(' {
            let k = choose|k: int| 0 <= k < st.drop_last().len() && st.drop_last()[k] == '(';
            assert(st[k] == '(');
        }
    }
}

/// Scanning a concatenation is scanning the first part, then the second
/// from the depth the first one reached.
proof fn lemma_scan_append(a: Seq<char>, b: Seq<char>, d: int)
    ensures
        scan_depth(a + b, d) == (match scan_depth(a, d) {
            Some(d2) => scan_depth(b, d2),
            None => None::<int>,
        }),
    decreases a.len(),
{
    if a.len() == 0 {
        assert(a + b =~= b);
    } else {
        assert((a + b)[0] == a[0]);
        assert((a + b).drop_first() =~= a.drop_first() + b);
        if a[0] == '(' {
            lemma_scan_append(a.drop_first(), b, d + 1);
        } else if a[0] == ')' {
            if d > 0 {
                lemma_scan_append(a.drop_first(), b, d - 1);
            }
        } else {
            lemma_scan_append(a.drop_first(), b, d);
        }
    }
}

/// The explicit-concatenation pass only inserts `.`, so it leaves the
/// parenthesis scan — and with it balance — untouched.
proof fn lemma_explicit_scan(s: Seq<char>, i: int, d: int)
    requires
        0 <= i <= s.len(),
    ensures
        scan_depth(explicit_concat_from(s, i), d) == scan_depth(s.skip(i), d),
    decreases s.len() - i,
{
    if i < s.len() {
        let emitted = if s[i] != '(' && s[i] != '|' && i < s.len() - 1 && !concat_blocked(
            s[i + 1],
        ) {
            seq![s[i], '.']
        } else {
            seq![s[i]]
        };
        lemma_scan_append(emitted, explicit_concat_from(s, i + 1), d);
        assert(emitted.drop_first() =~= if emitted.len() == 2 {
            seq!['.']
        } else {
            Seq::<char>::empty()
        });
        assert(seq!['.'].drop_first() =~= Seq::<char>::empty());
        let d2 = if s[i] == '(' {
            d + 1
        } else if s[i] == ')' {
            d - 1
        } else {
            d
        };
        if !(s[i] == ')' && d <= 0) {
            assert(scan_depth(Seq::<char>::empty(), d2) == Some(d2));
            if emitted.len() == 2 {
                assert(scan_depth(seq!['.'], d2) == Some(d2));
            }
            assert(scan_depth(emitted, d) == Some(d2));
            lemma_explicit_scan(s, i + 1, d2);
        }
        assert(s.skip(i)[0] == s[i]);
        assert(s.skip(i).drop_first() =~= s.skip(i + 1));
    } else {
        assert(s.skip(i) =~= Seq::<char>::empty());
    }
}

proof fn lemma_pop_ge_props(st: Seq<char>, c: char)
    requires
        forall|k: int| 0 <= k < st.len() ==> st[k] != ')',
    ensures
        ({
            let r = pop_ge(st, c);
            &&& forall|k: int| 0 <= k < r.0.len() ==> r.0[k] != ')'
            &&& count_lp(r.0) == count_lp(st)
            &&& !r.1.contains('(') && !r.1.contains(')')
        }),
    decreases st.len(),
{
    let r = pop_ge(st, c);
    if !(st.len() == 0 || st.last() == '(' || prec(st.last()) < prec(c)) {
        assert(forall|k: int| 0 <= k < st.drop_last().len() ==> st.drop_last()[k] != ')');
        lemma_pop_ge_props(st.drop_last(), c);
        let rest = pop_ge(st.drop_last(), c);
        assert(st.last() != '(' && st.last() != ')');
        assert forall|p: char| #[trigger] r.1.contains(p) implies p != '(' && p != ')' by {
            let k = choose|k: int| 0 <= k < r.1.len() && r.1[k] == p;
            if k > 0 {
                assert(rest.1[k - 1] == p);
            }
        }
    }
}

proof fn lemma_pop_to_lparen_props(st: Seq<char>)
    requires
        forall|k: int| 0 <= k < st.len() ==> st[k] != ')',
    ensures
        ({
            let r = pop_to_lparen(st);
            &&& forall|k: int| 0 <= k < r.0.len() ==> r.0[k] != ')'
            &&& if count_lp(st) > 0 {
                count_lp(r.0) == count_lp(st) - 1 && !r.1.contains('(') && !r.1.contains(')')
            } else {
                r.1.contains(')')
            }
        }),
    decreases st.len(),
{
    let r = pop_to_lparen(st);
    if st.len() == 0 {
        assert(r.1[0] == ')');
    } else if st.last() == '(' {
        lemma_count_lp_bounds(st.drop_last());
    } else {
        assert(forall|k: int| 0 <= k < st.drop_last().len() ==> st.drop_last()[k] != ')');
        lemma_pop_to_lparen_props(st.drop_last());
        let rest = pop_to_lparen(st.drop_last());
        if count_lp(st) > 0 {
            assert forall|p: char| #[trigger] r.1.contains(p) implies p != '(' && p != ')' by {
                let k = choose|k: int| 0 <= k < r.1.len() && r.1[k] == p;
                if k > 0 {
                    assert(rest.1[k - 1] == p);
                }
            }
        } else {
            let k = choose|k: int| 0 <= k < rest.1.len() && rest.1[k] == ')';
            assert(r.1[k + 1] == ')');
        }
    }
}

/// The shunting pass only ever appends to its output.
proof fn lemma_shunt_extends(s: Seq<char>, i: int, st: Seq<char>, out: Seq<char>)
    ensures
        shunt_from(s, i, st, out).len() >= out.len(),
        forall|k: int| 0 <= k < out.len() ==> #[trigger] shunt_from(s, i, st, out)[k] == out[k],
    decreases s.len() - i,
{
    if i < 0 || i >= s.len() {
        assert(forall|k: int|
            0 <= k < out.len() ==> #[trigger] (out + st.reverse())[k] == out[k]);
    } else {
        let c = s[i];
        if is_op(c) {
            let popped = pop_ge(st, c);
            lemma_shunt_extends(s, i + 1, popped.0.push(c), out + popped.1);
            assert(forall|k: int| 0 <= k < out.len() ==> #[trigger] (out + popped.1)[k] == out[k]);
        } else if c == '(' {
            lemma_shunt_extends(s, i + 1, st.push(c), out);
        } else if c == ')' {
            let popped = pop_to_lparen(st);
            lemma_shunt_extends(s, i + 1, popped.0, out + popped.1);
            assert(forall|k: int| 0 <= k < out.len() ==> #[trigger] (out + popped.1)[k] == out[k]);
        } else {
            lemma_shunt_extends(s, i + 1, st, out.push(c));
            assert(forall|k: int| 0 <= k < out.len() ==> #[trigger] out.push(c)[k] == out[k]);
        }
    }
}

/// The shunting pass on an unbalanced remainder leaves a parenthesis in
/// its output: a stray `)` is emitted on the spot, and a leftover `(` is
/// pushed out by the final drain.
proof fn lemma_shunt_unbalanced(s: Seq<char>, i: int, st: Seq<char>, out: Seq<char>)
    requires
        0 <= i <= s.len(),
        forall|k: int| 0 <= k < st.len() ==> st[k] != ')',
        !out.contains('(') && !out.contains(')'),
        scan_depth(s.skip(i), count_lp(st)) != Some(0int),
    ensures
        shunt_from(s, i, st, out).contains('(') || shunt_from(s, i, st, out).contains(')'),
    decreases s.len() - i,
{
    let d = count_lp(st);
    lemma_count_lp_bounds(st);
    if i == s.len() {
        assert(s.skip(i) =~= Seq::<char>::empty());
        assert(d > 0);
        let k = choose|k: int| 0 <= k < st.len() && st[k] == '(';
        let res = out + st.reverse();
        assert(st.reverse()[st.len() - 1 - k] == '(');
        assert(res[out.len() + st.len() - 1 - k] == '(');
        assert(res.contains('('));
    } else {
        let c = s[i];
        assert(s.skip(i)[0] == c);
        assert(s.skip(i).drop_first() =~= s.skip(i + 1));
        if is_op(c) {
            let popped = pop_ge(st, c);
            lemma_pop_ge_props(st, c);
            assert(popped.0.push(c).drop_last() =~= popped.0);
            assert(count_lp(popped.0.push(c)) == count_lp(popped.0));
            assert forall|p: char| #[trigger]
                (out + popped.1).contains(p) implies out.contains(p) || popped.1.contains(p) by {
                let k = choose|k: int| 0 <= k < (out + popped.1).len() && (out + popped.1)[k] == p;
                if k < out.len() {
                    assert(out[k] == p);
                } else {
                    assert(popped.1[k - out.len()] == p);
                }
            }
            lemma_shunt_unbalanced(s, i + 1, popped.0.push(c), out + popped.1);
        } else if c == '(' {
            assert(st.push(c).drop_last() =~= st);
            assert(count_lp(st.push(c)) == count_lp(st) + 1);
            lemma_shunt_unbalanced(s, i + 1, st.push(c), out);
        } else if c == ')' {
            let popped = pop_to_lparen(st);
            lemma_pop_to_lparen_props(st);
            if d > 0 {
                assert forall|p: char| #[trigger]
                    (out + popped.1).contains(p) implies out.contains(p) || popped.1.contains(
                    p,
                ) by {
                    let k = choose|k: int|
                        0 <= k < (out + popped.1).len() && (out + popped.1)[k] == p;
                    if k < out.len() {
                        assert(out[k] == p);
                    } else {
                        assert(popped.1[k - out.len()] == p);
                    }
                }
                lemma_shunt_unbalanced(s, i + 1, popped.0, out + popped.1);
            } else {
                let out2 = out + popped.1;
                let k = choose|k: int| 0 <= k < popped.1.len() && popped.1[k] == ')';
                assert(out2[out.len() + k] == ')');
                assert(out2.contains(')'));
                lemma_shunt_extends(s, i + 1, popped.0, out2);
                let res = shunt_from(s, i + 1, popped.0, out2);
                assert(res[out.len() + k] == ')');
                assert(res.contains(')'));
            }
        } else {
            assert forall|p: char| #[trigger] out.push(c).contains(p) implies out.contains(p) || p
                == c by {
                let k = choose|k: int| 0 <= k < out.push(c).len() && out.push(c)[k] == p;
                if k < out.len() {
                    assert(out[k] == p);
                }
            }
            lemma_shunt_unbalanced(s, i + 1, st, out.push(c));
        }
    }
}

/// A pattern with unbalanced parentheses converts to a postfix string that
/// still holds a parenthesis, which the automaton builder rejects.
pub proof fn lemma_unbalanced_postfix_has_paren(p: Seq<char>)
    requires
        !paren_balanced(p),
    ensures
        spec_to_postfix(spec_explicit_concat(p)).contains('(') || spec_to_postfix(
            spec_explicit_concat(p),
        ).contains(')'),
{
    let e = spec_explicit_concat(p);
    lemma_explicit_scan(p, 0, 0);
    assert(p.skip(0) =~= p);
    assert(scan_depth(e, 0) != Some(0int));
    assert(e.skip(0) =~= e);
    assert(count_lp(Seq::<char>::empty()) == 0);
    lemma_shunt_unbalanced(e, 0, Seq::empty(), Seq::empty());
}

/// Relies on String's FromIterator impl: collecting a vector of characters
/// yields the string of exactly those characters, in order.
#[verifier::external_body]
fn chars_to_string(v: Vec<char>) -> (s: String)
    ensures
        s@ == v@,
{
    v.into_iter().collect()
}

/// Inserts an explicit concatenation operator between adjacent atoms.
#[verifier::loop_isolation(false)]
pub fn with_explicit_concat(input: &str) -> (r: String)
    ensures
        r@ == spec_explicit_concat(input@),
{
    let ghost s = input@;
    let n = input.unicode_len();
    let mut output: Vec<char> = Vec::new();
    let mut i: usize = 0;
    while i < n
        invariant
            i <= n,
            output@ + explicit_concat_from(s, i as int) == spec_explicit_concat(s),
        decreases n - i,
    {
        let c = input.get_char(i);
        let ghost out0 = output@;
        output.push(c);
        if c != '(' && c != '|' && i + 1 < n {
            let next = input.get_char(i + 1);
            if next != '*' && next != '?' && next != '+' && next != '|' && next != ')' {
                output.push('.');
                proof {
                    assert(output@ + explicit_concat_from(s, i as int + 1) =~= out0 + (seq![
                        s[i as int],
                        '.',
                    ] + explicit_concat_from(s, i as int + 1)));
                }
            } else {
                proof {
                    assert(output@ + explicit_concat_from(s, i as int + 1) =~= out0 + (seq![
                        s[i as int],
                    ] + explicit_concat_from(s, i as int + 1)));
                }
            }
        } else {
            proof {
                assert(output@ + explicit_concat_from(s, i as int + 1) =~= out0 + (seq![
                    s[i as int],
                ] + explicit_concat_from(s, i as int + 1)));
            }
        }
        i += 1;
    }
    proof {
        assert(output@ + explicit_concat_from(s, n as int) =~= output@);
    }
    chars_to_string(output)
}

/// Reduces an infix pattern with explicit concatenation to postfix
/// character order.
#[verifier::loop_isolation(false)]
pub fn to_postfix(input: &str) -> (r: String)
    ensures
        r@ == spec_to_postfix(input@),
{
    let ghost s = input@;
    let n = input.unicode_len();
    let mut output: Vec<char> = Vec::new();
    let mut stack: Vec<char> = Vec::new();
    let mut i: usize = 0;
    proof {
        assert(shunt_from(s, 0, stack@, output@) == spec_to_postfix(s));
    }
    while i < n
        invariant
            i <= n,
            shunt_from(s, i as int, stack@, output@) == spec_to_postfix(s),
        decreases n - i,
    {
        let c = input.get_char(i);
        if c == '.' || c == '|' || c == '*' || c == '?' || c == '+' {
            let ghost stack0 = stack@;
            let ghost out0 = output@;
            while stack.len() > 0 && stack[stack.len() - 1] != '(' && prec_of(
                stack[stack.len() - 1],
            ) >= prec_of(c)
                invariant
                    pop_ge(stack@, c).0 == pop_ge(stack0, c).0,
                    output@ + pop_ge(stack@, c).1 == out0 + pop_ge(stack0, c).1,
                decreases stack@.len(),
            {
                let top = stack.pop().unwrap();
                output.push(top);
                proof {
                    assert(output@ + pop_ge(stack@, c).1 =~= out0 + pop_ge(stack0, c).1);
                }
            }
            stack.push(c);
        } else if c == '(' {
            stack.push(c);
        } else if c == ')' {
            let ghost stack0 = stack@;
            let ghost out0 = output@;
            while stack.len() > 0 && stack[stack.len() - 1] != '('
                invariant
                    pop_to_lparen(stack@).0 == pop_to_lparen(stack0).0,
                    output@ + pop_to_lparen(stack@).1 == out0 + pop_to_lparen(stack0).1,
                decreases stack@.len(),
            {
                let top = stack.pop().unwrap();
                output.push(top);
                proof {
                    assert(output@ + pop_to_lparen(stack@).1 =~= out0 + pop_to_lparen(stack0).1);
                }
            }
            if stack.len() > 0 {
                stack.pop();
            } else {
                output.push(')');
                proof {
                    assert(output@ =~= out0 + pop_to_lparen(stack0).1);
                }
            }
        } else {
            output.push(c);
        }
        i += 1;
    }
    let ghost stack_fin = stack@;
    let ghost out_fin = output@;
    while stack.len() > 0
        invariant
            output@ + stack@.reverse() == out_fin + stack_fin.reverse(),
        decreases stack@.len(),
    {
        let ghost sb = stack@;
        let top = stack.pop().unwrap();
        output.push(top);
        proof {
            assert(sb.reverse() =~= seq![sb.last()] + sb.drop_last().reverse());
            assert(output@ + stack@.reverse() =~= out_fin + stack_fin.reverse());
        }
    }
    proof {
        assert(stack@.reverse() =~= Seq::<char>::empty());
        assert(output@ =~= out_fin + stack_fin.reverse());
        assert(shunt_from(s, n as int, stack_fin, out_fin) == out_fin + stack_fin.reverse());
    }
    chars_to_string(output)
}

/// The executable precedence table.
fn prec_of(c: char) -> (r: i32)
    ensures
        r as int == prec(c),
{
    if c == '|' {
        0
    } else if c == '.' {
        1
    } else {
        2
    }
}

} // verus!
