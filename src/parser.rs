//! Parses the regex text into an expression tree: an operator-precedence
//! rewrite to postfix, then a right-to-left build of the tree.
use crate::regex::{is_symbol, is_symbol_char, RegexExpr};
use vstd::prelude::*;
use vstd::string::*;

verus! {

/// The operator that stands for implicit concatenation in postfix.
pub const CONCAT: char = '^';

/// Why a regex text could not be parsed.
#[derive(Debug, PartialEq, Eq, Clone, Copy)]
pub enum ParseError {
    /// There is nothing to parse.
    EmptyExpression,
    /// A character outside the letters, digits and `( ) * |`.
    UnrecognizedCharacter(char),
    /// Operators and operands do not balance.
    Malformed,
}

/// The character at `j` starts an operand.
pub open spec fn begins_operand(s: Seq<char>, j: int) -> bool {
    0 <= j < s.len() && (is_symbol(s[j]) || s[j] == '(')
}

/// Pushes a concatenation marker when the character after `k` starts an operand.
pub open spec fn concat_if_next(stack: Seq<char>, s: Seq<char>, k: int) -> Seq<char> {
    if begins_operand(s, k + 1) {
        stack.push(CONCAT)
    } else {
        stack
    }
}

/// Moves operators from the stack to the output down to the nearest `(`,
/// which is dropped.
pub open spec fn close_group(stack: Seq<char>, out: Seq<char>) -> (Seq<char>, Seq<char>)
    decreases stack.len(),
{
    if stack.len() == 0 {
        (stack, out)
    } else if stack.last() == '(' {
        (stack.drop_last(), out)
    } else {
        close_group(stack.drop_last(), out.push(stack.last()))
    }
}

/// Moves the concatenation markers on top of the stack to the output.
pub open spec fn pop_concats(stack: Seq<char>, out: Seq<char>) -> (Seq<char>, Seq<char>)
    decreases stack.len(),
{
    if stack.len() > 0 && stack.last() == CONCAT {
        pop_concats(stack.drop_last(), out.push(CONCAT))
    } else {
        (stack, out)
    }
}

/// One step of the rewrite, on the character at `k`; `Err(c)` for a
/// character `c` that is not recognised.
pub open spec fn scan_step(s: Seq<char>, k: int, stack: Seq<char>, out: Seq<char>) -> Result<
    (Seq<char>, Seq<char>),
    char,
> {
    let c = s[k];
    if is_symbol(c) || c == '*' {
        Ok((concat_if_next(stack, s, k), out.push(c)))
    } else if c == '(' {
        Ok((stack.push('('), out))
    } else if c == ')' {
        let (st, o) = close_group(stack, out);
        Ok((concat_if_next(st, s, k), o))
    } else if c == '|' {
        let (st, o) = pop_concats(stack, out);
        Ok((st.push('|'), o))
    } else {
        Err(c)
    }
}

/// The operator stack and output after the first `i` characters.
pub open spec fn scan(s: Seq<char>, i: nat) -> Result<(Seq<char>, Seq<char>), char>
    decreases i,
{
    if i == 0 {
        Ok((Seq::empty(), Seq::empty()))
    } else {
        match scan(s, (i - 1) as nat) {
            Err(c) => Err(c),
            Ok((stack, out)) => scan_step(s, i - 1, stack, out),
        }
    }
}

/// Moves what is left on the stack to the output, dropping any `)`.
pub open spec fn drain(stack: Seq<char>, out: Seq<char>) -> Seq<char>
    decreases stack.len(),
{
    if stack.len() == 0 {
        out
    } else if stack.last() == ')' {
        drain(stack.drop_last(), out)
    } else {
        drain(stack.drop_last(), out.push(stack.last()))
    }
}

/// The postfix form of `s`, or the first character that is not recognised.
pub open spec fn postfix(s: Seq<char>) -> Result<Seq<char>, char> {
    match scan(s, s.len()) {
        Err(c) => Err(c),
        Ok((stack, out)) => Ok(drain(stack, out)),
    }
}

/// The tree whose postfix form ends at token `end - 1` of `p`, with the
/// number of tokens it takes; `None` when the tokens run out.
pub open spec fn tree_at(p: Seq<char>, end: nat) -> Option<(RegexExpr, nat)>
    decreases end,
{
    if end == 0 || end > p.len() {
        None
    } else {
        let c = p[end - 1];
        if is_symbol(c) {
            Some((RegexExpr::SingleChar(c), 1))
        } else if c == '*' {
            match tree_at(p, (end - 1) as nat) {
                Some((t, k)) => Some((RegexExpr::Star(Box::new(t)), k + 1)),
                None => None,
            }
        } else if c == CONCAT || c == '|' {
            match tree_at(p, (end - 1) as nat) {
                Some((r, kr)) => if kr >= end - 1 {
                    None
                } else {
                    match tree_at(p, (end - 1 - kr) as nat) {
                        Some((l, kl)) => Some(
                            (
                                if c == CONCAT {
                                    RegexExpr::Concat(Box::new(l), Box::new(r))
                                } else {
                                    RegexExpr::Or(Box::new(l), Box::new(r))
                                },
                                1 + kl + kr,
                            ),
                        ),
                        None => None,
                    }
                },
                None => None,
            }
        } else {
            None
        }
    }
}

/// What parsing `s` gives.
pub open spec fn parse(s: Seq<char>) -> Result<RegexExpr, ParseError> {
    match postfix(s) {
        Err(c) => Err(ParseError::UnrecognizedCharacter(c)),
        Ok(p) => if p.len() == 0 {
            Err(ParseError::EmptyExpression)
        } else {
            match tree_at(p, p.len()) {
                Some((t, _)) => Ok(t),
                None => Err(ParseError::Malformed),
            }
        },
    }
}

/// Builds the tree whose postfix form ends at `polish_str[start]`; returns it
/// with the number of tokens it takes.
pub fn tree_from_str(polish_str: &Vec<char>, start: usize) -> (r: Result<(RegexExpr, usize), ParseError>)
    requires
        start < polish_str@.len(),
    ensures
        match r {
            Ok((t, k)) => tree_at(polish_str@, (start + 1) as nat) == Some((t, k as nat)) && 1 <= k
                <= start + 1,
            Err(e) => tree_at(polish_str@, (start + 1) as nat) is None && e == ParseError::Malformed,
        },
    decreases start,
{
    let s_size: usize = polish_str.len();
    assert(start + 1 <= s_size);
    let curr = polish_str[start];
    if is_symbol_char(curr) {
        Ok((RegexExpr::SingleChar(curr), 1))
    } else if curr == '*' {
        if start == 0 {
            return Err(ParseError::Malformed);
        }
        let (child, ct) = match tree_from_str(polish_str, start - 1) {
            Ok(found) => found,
            Err(e) => return Err(e),
        };
        Ok((RegexExpr::Star(Box::new(child)), 1 + ct))
    } else if curr == CONCAT || curr == '|' {
        if start == 0 {
            return Err(ParseError::Malformed);
        }
        let (childr, ctr) = match tree_from_str(polish_str, start - 1) {
            Ok(found) => found,
            Err(e) => return Err(e),
        };
        if ctr >= start {
            return Err(ParseError::Malformed);
        }
        let (childl, ctl) = match tree_from_str(polish_str, start - ctr - 1) {
            Ok(found) => found,
            Err(e) => return Err(e),
        };
        let node = if curr == CONCAT {
            RegexExpr::Concat(Box::new(childl), Box::new(childr))
        } else {
            RegexExpr::Or(Box::new(childl), Box::new(childr))
        };
        Ok((node, 1 + ctl + ctr))
    } else {
        Err(ParseError::Malformed)
    }
}

/// Once a character is not recognised the rewrite stays failed.
proof fn lemma_scan_err_persists(s: Seq<char>, k: nat, m: nat)
    requires
        k <= m,
        scan(s, k) is Err,
    ensures
        scan(s, m) == scan(s, k),
    decreases m,
{
    if m > k {
        lemma_scan_err_persists(s, k, (m - 1) as nat);
    }
}

/// The character at `j` of `chars`, if any, starts an operand.
fn next_begins_operand(chars: &Vec<char>, j: usize) -> (r: bool)
    ensures
        r == begins_operand(chars@, j as int),
{
    j < chars.len() && (is_symbol_char(chars[j]) || chars[j] == '(')
}

/// Parses a regex over letters and digits with `(`, `)`, `*` and `|`.
/// Concatenation is implicit and binds tighter than `|`; `*` binds tightest.
pub fn parse_regex(input_string: &str) -> (r: Result<RegexExpr, ParseError>)
    ensures
        r == parse(input_string@),
{
    let n = input_string.unicode_len();
    let mut chars: Vec<char> = Vec::new();
    let mut i: usize = 0;
    while i < n
        invariant
            n == input_string@.len(),
            0 <= i <= n,
            chars@ == input_string@.take(i as int),
        decreases n - i,
    {
        chars.push(input_string.get_char(i));
        i += 1;
        assert(chars@ =~= input_string@.take(i as int));
    }
    assert(chars@ =~= input_string@);
    let ghost s = chars@;
    let mut stack: Vec<char> = Vec::new();
    let mut rps: Vec<char> = Vec::new();
    let mut index: usize = 0;
    while index < n
        invariant
            n == s.len(),
            chars@ == s,
            s == input_string@,
            0 <= index <= n,
            scan(s, index as nat) == Ok::<(Seq<char>, Seq<char>), char>((stack@, rps@)),
        decreases n - index,
    {
        let c = chars[index];
        let ghost st0 = stack@;
        let ghost out0 = rps@;
        if is_symbol_char(c) || c == '*' {
            rps.push(c);
            if next_begins_operand(&chars, index + 1) {
                stack.push(CONCAT);
            }
        } else if c == '(' {
            stack.push('(');
        } else if c == ')' {
            let ghost target = close_group(st0, out0);
            let mut done = false;
            while !done && stack.len() > 0
                invariant
                    done ==> (stack@, rps@) == target,
                    !done ==> close_group(stack@, rps@) == target,
                decreases stack@.len(),
            {
                let top = stack.pop().unwrap();
                if top == '(' {
                    done = true;
                } else {
                    rps.push(top);
                }
            }
            if next_begins_operand(&chars, index + 1) {
                stack.push(CONCAT);
            }
        } else if c == '|' {
            let ghost target = pop_concats(st0, out0);
            while stack.len() > 0 && stack[stack.len() - 1] == CONCAT
                invariant
                    pop_concats(stack@, rps@) == target,
                decreases stack@.len(),
            {
                let top = stack.pop().unwrap();
                rps.push(top);
            }
            stack.push('|');
        } else {
            proof {
                assert(scan(s, (index + 1) as nat) == Err::<(Seq<char>, Seq<char>), char>(c));
                lemma_scan_err_persists(s, (index + 1) as nat, n as nat);
            }
            return Err(ParseError::UnrecognizedCharacter(c));
        }
        index += 1;
    }
    let ghost target = drain(stack@, rps@);
    while stack.len() > 0
        invariant
            drain(stack@, rps@) == target,
        decreases stack@.len(),
    {
        let curr = stack.pop().unwrap();
        if curr != ')' {
            rps.push(curr);
        }
    }
    if rps.len() == 0 {
        return Err(ParseError::EmptyExpression);
    }
    let last = rps.len() - 1;
    match tree_from_str(&rps, last) {
        Ok((tree, _)) => Ok(tree),
        Err(e) => Err(e),
    }
}

/// Opening minus closing parentheses among the first `i` characters.
pub open spec fn depth(s: Seq<char>, i: nat) -> int
    decreases i,
{
    if i == 0 || i > s.len() {
        0
    } else {
        depth(s, (i - 1) as nat) + if s[i - 1] == '(' {
            1int
        } else if s[i - 1] == ')' {
            -1int
        } else {
            0int
        }
    }
}

/// Every `)` closes an earlier `(` and every `(` is closed.
pub open spec fn balanced(s: Seq<char>) -> bool {
    &&& forall|i: nat| i <= s.len() ==> #[trigger] depth(s, i) >= 0
    &&& depth(s, s.len()) == 0
}

/// The number of `(` on a stack.
pub open spec fn count_open(st: Seq<char>) -> nat
    decreases st.len(),
{
    if st.len() == 0 {
        0
    } else {
        count_open(st.drop_last()) + if st.last() == '(' {
            1nat
        } else {
            0nat
        }
    }
}

/// No `)` on a stack.
pub open spec fn no_close(st: Seq<char>) -> bool {
    forall|k: int| 0 <= k < st.len() ==> st[k] != ')'
}

proof fn lemma_close_group_under_open(st: Seq<char>, out: Seq<char>)
    requires
        count_open(st) >= 1,
        no_close(st),
    ensures
        close_group(seq!['('] + st, out) == ((seq!['('] + close_group(st, out).0), close_group(st, out).1),
        count_open(close_group(st, out).0) == count_open(st) - 1,
        no_close(close_group(st, out).0),
    decreases st.len(),
{
    let u = seq!['('] + st;
    assert(u.last() == st.last());
    assert(u.drop_last() =~= seq!['('] + st.drop_last());
    if st.last() != '(' {
        lemma_close_group_under_open(st.drop_last(), out.push(st.last()));
    }
}

proof fn lemma_close_group_last(st: Seq<char>, out: Seq<char>)
    requires
        count_open(st) == 0,
        no_close(st),
    ensures
        close_group(seq!['('] + st, out) == (Seq::<char>::empty(), drain(st, out)),
    decreases st.len(),
{
    let u = seq!['('] + st;
    if st.len() == 0 {
        assert(u =~= seq!['(']);
        assert(u.drop_last() =~= Seq::<char>::empty());
    } else {
        assert(u.last() == st.last());
        assert(u.drop_last() =~= seq!['('] + st.drop_last());
        lemma_close_group_last(st.drop_last(), out.push(st.last()));
    }
}

proof fn lemma_pop_concats_under_open(st: Seq<char>, out: Seq<char>)
    requires
        no_close(st),
    ensures
        pop_concats(seq!['('] + st, out) == ((seq!['('] + pop_concats(st, out).0), pop_concats(st, out).1),
        count_open(pop_concats(st, out).0) == count_open(st),
        no_close(pop_concats(st, out).0),
    decreases st.len(),
{
    let u = seq!['('] + st;
    if st.len() == 0 {
        assert(u =~= seq!['(']);
        assert(u =~= seq!['('] + st);
    } else {
        assert(u.last() == st.last());
        assert(u.drop_last() =~= seq!['('] + st.drop_last());
        if st.last() == CONCAT {
            lemma_pop_concats_under_open(st.drop_last(), out.push(CONCAT));
        }
    }
}

/// Scanning `(s)` runs as scanning `s` over one more `(` at the bottom of the
/// stack, as long as the parentheses of `s` never close below it.
proof fn lemma_scan_wrapped(s: Seq<char>, i: nat)
    requires
        i <= s.len(),
        forall|j: nat| j <= i ==> #[trigger] depth(s, j) >= 0,
    ensures
        ({
            let t = seq!['('] + s + seq![')'];
            match scan(s, i) {
                Ok((st, out)) => scan(t, i + 1) == Ok::<(Seq<char>, Seq<char>), char>(
                    (seq!['('] + st, out),
                ) && count_open(st) == depth(s, i) && no_close(st),
                Err(c) => scan(t, i + 1) == Err::<(Seq<char>, Seq<char>), char>(c),
            }
        }),
    decreases i,
{
    let t = seq!['('] + s + seq![')'];
    if i == 0 {
        assert(t[0] == '(');
        assert(seq!['('] + Seq::<char>::empty() =~= seq!['(']);
        assert(Seq::<char>::empty().push('(') =~= seq!['(']);
    } else {
        let kn = (i - 1) as nat;
        let k: int = i - 1;
        lemma_scan_wrapped(s, kn);
        assert(t[k + 1] == s[k]);
        assert(begins_operand(t, k + 2) == begins_operand(s, k + 1));
        match scan(s, kn) {
            Ok((st, out)) => {
                let c = s[k];
                if c == ')' {
                    assert(depth(s, i) == depth(s, kn) - 1);
                    lemma_close_group_under_open(st, out);
                    let (st2, o2) = close_group(st, out);
                    if begins_operand(s, k + 1) {
                        assert((seq!['('] + st2).push(CONCAT) =~= seq!['('] + st2.push(CONCAT));
                        assert(st2.push(CONCAT).drop_last() =~= st2);
                    }
                } else if c == '|' {
                    lemma_pop_concats_under_open(st, out);
                    let (st2, o2) = pop_concats(st, out);
                    assert((seq!['('] + st2).push('|') =~= seq!['('] + st2.push('|'));
                    assert(st2.push('|').drop_last() =~= st2);
                } else if c == '(' {
                    assert((seq!['('] + st).push('(') =~= seq!['('] + st.push('('));
                    assert(st.push('(').drop_last() =~= st);
                } else if is_symbol(c) || c == '*' {
                    if begins_operand(s, k + 1) {
                        assert((seq!['('] + st).push(CONCAT) =~= seq!['('] + st.push(CONCAT));
                        assert(st.push(CONCAT).drop_last() =~= st);
                    }
                }
            },
            Err(c) => {},
        }
    }
}

/// Parentheses around a text whose parentheses balance change nothing:
/// `(s)` parses as `s` does, to the same tree or the same error.
pub proof fn lemma_parens_transparent(s: Seq<char>)
    requires
        balanced(s),
    ensures
        parse(seq!['('] + s + seq![')']) == parse(s),
{
    let t = seq!['('] + s + seq![')'];
    let n = s.len();
    let ni: int = n as int;
    lemma_scan_wrapped(s, n);
    match scan(s, n) {
        Ok((st, out)) => {
            assert(t[ni + 1] == ')');
            assert(t.len() == n + 2);
            lemma_close_group_last(st, out);
            assert(!begins_operand(t, ni + 2));
            assert(scan(t, n + 2) == Ok::<(Seq<char>, Seq<char>), char>((Seq::<char>::empty(), drain(st, out))));
        },
        Err(c) => {
            lemma_scan_err_persists(t, n + 1, n + 2);
        },
    }
}

} // verus!
