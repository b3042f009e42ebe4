//! Reading an expression from text.
//!
//! ```text
//! expr    := term (('+' | '-') term)*
//! term    := factor (('*' | '/') factor)*
//! factor  := unary ('^' unary)*              the powers group to the right
//! unary   := ('+' | '-')* (func | primary)
//! func    := ("sin" | "cos" | "tan" | "log" | "exp") '(' expr ')'
//! primary := digits | word | '(' expr ')'
//! ```
//!
//! Spaces may stand between the tokens. A list of operands ends before the
//! first operator that no operand follows, and what was read up to there is
//! the result.
use crate::env::{lookup, Environment};
use crate::expr::{binop, num, pointee, unop, Bop, Expr, Uop, Var};
use std::rc::Rc;
use vstd::prelude::*;
use vstd::string::StringExecFns;

verus! {

/// The names of the variables, in the order of their numbers.
pub type Names = Seq<Seq<char>>;

/// What reading at a position gives: the expression and the position behind
/// it, or the position at which nothing fitting stood.
pub type Outcome = Result<(Expr, int), int>;

pub open spec fn is_space(c: char) -> bool {
    c == ' ' || c == '\t' || c == '\n' || c == '\r'
}

pub open spec fn is_digit(c: char) -> bool {
    '0' <= c && c <= '9'
}

pub open spec fn is_alpha(c: char) -> bool {
    ('a' <= c && c <= 'z') || ('A' <= c && c <= 'Z')
}

pub open spec fn is_sign(c: char) -> bool {
    c == '+' || c == '-'
}

/// The value of a digit.
pub open spec fn digit_value(c: char) -> int {
    c as int - '0' as int
}

/// The first position from `pos` on that holds no space.
pub open spec fn skip_spaces(s: Seq<char>, pos: int) -> int
    decreases s.len() - pos,
{
    if 0 <= pos < s.len() && is_space(s[pos]) {
        skip_spaces(s, pos + 1)
    } else {
        pos
    }
}

/// The first position from `pos` on that holds no digit.
pub open spec fn digits_end(s: Seq<char>, pos: int) -> int
    decreases s.len() - pos,
{
    if 0 <= pos < s.len() && is_digit(s[pos]) {
        digits_end(s, pos + 1)
    } else {
        pos
    }
}

/// The first position from `pos` on that holds neither a letter nor a digit.
pub open spec fn word_end(s: Seq<char>, pos: int) -> int
    decreases s.len() - pos,
{
    if 0 <= pos < s.len() && (is_alpha(s[pos]) || is_digit(s[pos])) {
        word_end(s, pos + 1)
    } else {
        pos
    }
}

/// The number that the digits from `from` up to `to` write.
pub open spec fn digits_value(s: Seq<char>, from: int, to: int) -> int
    decreases to - from,
{
    if to <= from {
        0
    } else {
        digits_value(s, from, to - 1) * 10 + digit_value(s[to - 1])
    }
}

/// The position behind the signs that stand at `pos`, each with the spaces
/// around it.
pub open spec fn signs_end(s: Seq<char>, pos: int) -> int
    decreases s.len() - pos,
{
    let p = skip_spaces(s, pos);
    if 0 <= pos <= p < s.len() && is_sign(s[p]) {
        let q = skip_spaces(s, p + 1);
        if pos < q <= s.len() {
            signs_end(s, q)
        } else {
            pos
        }
    } else {
        pos
    }
}

/// Whether the signs that stand at `pos` hold an odd number of minus signs.
pub open spec fn negated(s: Seq<char>, pos: int) -> bool
    decreases s.len() - pos,
{
    let p = skip_spaces(s, pos);
    if 0 <= pos <= p < s.len() && is_sign(s[p]) {
        let q = skip_spaces(s, p + 1);
        if pos < q <= s.len() {
            (s[p] == '-') != negated(s, q)
        } else {
            false
        }
    } else {
        false
    }
}

/// The function that a word names, if it names one.
pub open spec fn function_of(word: Seq<char>) -> Option<Uop> {
    if word == seq!['s', 'i', 'n'] {
        Some(Uop::Sin)
    } else if word == seq!['c', 'o', 's'] {
        Some(Uop::Cos)
    } else if word == seq!['t', 'a', 'n'] {
        Some(Uop::Tan)
    } else if word == seq!['l', 'o', 'g'] {
        Some(Uop::Log)
    } else if word == seq!['e', 'x', 'p'] {
        Some(Uop::Exp)
    } else {
        None
    }
}

/// The number of the variable of a name: the one it has, or the next free
/// one.
pub open spec fn variable_id(names: Names, word: Seq<char>) -> nat {
    match lookup(names, word) {
        Some(id) => id,
        None => names.len(),
    }
}

/// The names once the name has a variable.
pub open spec fn with_name(names: Names, word: Seq<char>) -> Names {
    match lookup(names, word) {
        Some(_) => names,
        None => names.push(word),
    }
}

/// An unsigned whole number at `pos`: one or more digits, whose value must
/// fit `i64`.
pub open spec fn number_at(s: Seq<char>, pos: int) -> Outcome {
    let end = digits_end(s, pos);
    if 0 <= pos < s.len() && is_digit(s[pos]) && digits_value(s, pos, end) <= i64::MAX {
        Ok((num(digits_value(s, pos, end) as i64), end))
    } else {
        Err(pos)
    }
}

/// A variable at `pos`: a letter, then letters and digits. A name that is
/// new gets the next free variable.
pub open spec fn variable_at(s: Seq<char>, pos: int, names: Names) -> (Outcome, Names) {
    if 0 <= pos < s.len() && is_alpha(s[pos]) {
        let end = word_end(s, pos);
        let word = s.subrange(pos, end);
        (
            Ok((Expr::Var(Var::new_spec(variable_id(names, word) as usize)), end)),
            with_name(names, word),
        )
    } else {
        (Err(pos), names)
    }
}

/// Whether an operand was read that ends behind where it began and within
/// the text.
pub open spec fn advanced(s: Seq<char>, from: int, r: Outcome) -> bool {
    r matches Ok((_, end)) && from < end <= s.len()
}

/// An expression in brackets: the opening bracket at `pos`, an expression,
/// the closing bracket.
pub open spec fn paren_at(s: Seq<char>, pos: int, names: Names) -> (Outcome, Names)
    decreases s.len() - pos, 0int,
{
    if 0 <= pos < s.len() && s[pos] == '(' {
        let (r, n1) = expr_at(s, pos + 1, names);
        match r {
            Ok((e, end)) => if pos < end < s.len() && s[end] == ')' {
                (Ok((e, end + 1)), n1)
            } else {
                (Err(end), n1)
            },
            Err(p) => (Err(p), n1),
        }
    } else {
        (Err(pos), names)
    }
}

/// A function of an expression in brackets, a number, a variable or an
/// expression in brackets.
pub open spec fn atom_at(s: Seq<char>, pos: int, names: Names) -> (Outcome, Names)
    decreases s.len() - pos, 1int,
{
    if !(0 <= pos < s.len()) {
        (Err(pos), names)
    } else if is_digit(s[pos]) {
        (number_at(s, pos), names)
    } else if is_alpha(s[pos]) {
        let end = word_end(s, pos);
        match function_of(s.subrange(pos, end)) {
            Some(op) => if pos < end < s.len() && s[end] == '(' {
                let (r, n1) = paren_at(s, end, names);
                match r {
                    Ok((e, after)) => (Ok((unop(op, e), after)), n1),
                    Err(p) => (Err(p), n1),
                }
            } else {
                variable_at(s, pos, names)
            },
            None => variable_at(s, pos, names),
        }
    } else {
        paren_at(s, pos, names)
    }
}

/// Signs, then an atom; the atom is negated if the minus signs are odd in
/// number.
pub open spec fn unary_at(s: Seq<char>, pos: int, names: Names) -> (Outcome, Names)
    decreases s.len() - pos, 2int,
{
    let start = signs_end(s, pos);
    if pos <= start <= s.len() {
        let (r, n1) = atom_at(s, start, names);
        match r {
            Ok((e, end)) => if negated(s, pos) {
                (Ok((unop(Uop::Neg, e), end)), n1)
            } else {
                (Ok((e, end)), n1)
            },
            Err(p) => (Err(p), n1),
        }
    } else {
        (Err(pos), names)
    }
}

/// The powers behind a base: `base`, or `base ^ rest` where a `^` and a
/// further operand follow.
pub open spec fn pow_tail(s: Seq<char>, pos: int, base: Expr, names: Names) -> (Expr, int, Names)
    decreases s.len() - pos, 3int,
{
    let p = skip_spaces(s, pos);
    if 0 <= pos <= p < s.len() && s[p] == '^' {
        let q = skip_spaces(s, p + 1);
        if p < q <= s.len() {
            let (r, n1) = unary_at(s, q, names);
            match r {
                Ok((v, end)) => if advanced(s, q, r) {
                    let (rest, after, n2) = pow_tail(s, end, v, n1);
                    (binop(Bop::Pow, base, rest), after, n2)
                } else {
                    (base, pos, n1)
                },
                Err(_) => (base, pos, n1),
            }
        } else {
            (base, pos, names)
        }
    } else {
        (base, pos, names)
    }
}

/// An operand and the powers behind it.
pub open spec fn factor_at(s: Seq<char>, pos: int, names: Names) -> (Outcome, Names)
    decreases s.len() - pos, 4int,
{
    let (r, n1) = unary_at(s, pos, names);
    match r {
        Ok((u, end)) => if advanced(s, pos, r) {
            let (e, after, n2) = pow_tail(s, end, u, n1);
            (Ok((e, after)), n2)
        } else {
            (Err(pos), n1)
        },
        Err(p) => (Err(p), n1),
    }
}

/// The products and quotients behind `acc`, taken from the left.
pub open spec fn mul_tail(s: Seq<char>, pos: int, acc: Expr, names: Names) -> (Expr, int, Names)
    decreases s.len() - pos, 5int,
{
    let p = skip_spaces(s, pos);
    if 0 <= pos <= p < s.len() && (s[p] == '*' || s[p] == '/') {
        let q = skip_spaces(s, p + 1);
        if p < q <= s.len() {
            let (r, n1) = factor_at(s, q, names);
            match r {
                Ok((f, end)) => if advanced(s, q, r) {
                    let op = if s[p] == '*' {
                        Bop::Mul
                    } else {
                        Bop::Div
                    };
                    let next = skip_spaces(s, end);
                    if end <= next <= s.len() {
                        mul_tail(s, next, binop(op, acc, f), n1)
                    } else {
                        (acc, pos, n1)
                    }
                } else {
                    (acc, pos, n1)
                },
                Err(_) => (acc, pos, n1),
            }
        } else {
            (acc, pos, names)
        }
    } else {
        (acc, pos, names)
    }
}

/// A factor and the products and quotients behind it.
pub open spec fn term_at(s: Seq<char>, pos: int, names: Names) -> (Outcome, Names)
    decreases s.len() - pos, 6int,
{
    let (r, n1) = factor_at(s, pos, names);
    match r {
        Ok((f, end)) => if advanced(s, pos, r) {
            let (e, after, n2) = mul_tail(s, end, f, n1);
            (Ok((e, after)), n2)
        } else {
            (Err(pos), n1)
        },
        Err(p) => (Err(p), n1),
    }
}

/// The sums and differences behind `acc`, taken from the left.
pub open spec fn add_tail(s: Seq<char>, pos: int, acc: Expr, names: Names) -> (Expr, int, Names)
    decreases s.len() - pos, 7int,
{
    let p = skip_spaces(s, pos);
    if 0 <= pos <= p < s.len() && is_sign(s[p]) {
        let q = skip_spaces(s, p + 1);
        if p < q <= s.len() {
            let (r, n1) = term_at(s, q, names);
            match r {
                Ok((t, end)) => if advanced(s, q, r) {
                    let op = if s[p] == '+' {
                        Bop::Add
                    } else {
                        Bop::Sub
                    };
                    let next = skip_spaces(s, end);
                    if end <= next <= s.len() {
                        add_tail(s, next, binop(op, acc, t), n1)
                    } else {
                        (acc, pos, n1)
                    }
                } else {
                    (acc, pos, n1)
                },
                Err(_) => (acc, pos, n1),
            }
        } else {
            (acc, pos, names)
        }
    } else {
        (acc, pos, names)
    }
}

/// An expression: spaces, a term, spaces, and the sums and differences
/// behind it; the spaces behind the last term belong to it.
pub open spec fn expr_at(s: Seq<char>, pos: int, names: Names) -> (Outcome, Names)
    decreases s.len() - pos, 8int,
{
    let start = skip_spaces(s, pos);
    if 0 <= pos <= start <= s.len() {
        let (r, n1) = term_at(s, start, names);
        match r {
            Ok((t, end)) => if advanced(s, start, r) {
                let next = skip_spaces(s, end);
                if end <= next <= s.len() {
                    let (e, after, n2) = add_tail(s, next, t, n1);
                    (Ok((e, after)), n2)
                } else {
                    (Err(start), n1)
                }
            } else {
                (Err(start), n1)
            },
            Err(p) => (Err(p), n1),
        }
    } else {
        (Err(pos), names)
    }
}

/// The digits end within the text, at or behind where they began; what
/// stands before the end are digits.
pub proof fn lemma_digits_end(s: Seq<char>, pos: int)
    requires
        0 <= pos <= s.len(),
    ensures
        pos <= digits_end(s, pos) <= s.len(),
        digits_end(s, pos) < s.len() ==> !is_digit(s[digits_end(s, pos)]),
        forall|k: int| pos <= k < digits_end(s, pos) ==> is_digit(#[trigger] s[k]),
    decreases s.len() - pos,
{
    if pos < s.len() && is_digit(s[pos]) {
        lemma_digits_end(s, pos + 1);
    }
}

/// A word ends within the text, at or behind where it began; what stands
/// before the end are letters and digits.
pub proof fn lemma_word_end(s: Seq<char>, pos: int)
    requires
        0 <= pos <= s.len(),
    ensures
        pos <= word_end(s, pos) <= s.len(),
        word_end(s, pos) < s.len() ==> !(is_alpha(s[word_end(s, pos)]) || is_digit(
            s[word_end(s, pos)],
        )),
        forall|k: int|
            pos <= k < word_end(s, pos) ==> is_alpha(#[trigger] s[k]) || is_digit(s[k]),
    decreases s.len() - pos,
{
    if pos < s.len() && (is_alpha(s[pos]) || is_digit(s[pos])) {
        lemma_word_end(s, pos + 1);
    }
}

/// A run of one kind of character that begins at `pos` ends where the first
/// other character stands.
pub proof fn lemma_run_end(s: Seq<char>, pos: int, end: int)
    requires
        0 <= pos <= end <= s.len(),
    ensures
        (forall|k: int| pos <= k < end ==> is_space(#[trigger] s[k])) && (end < s.len()
            ==> !is_space(s[end])) ==> skip_spaces(s, pos) == end,
        (forall|k: int| pos <= k < end ==> is_digit(#[trigger] s[k])) && (end < s.len()
            ==> !is_digit(s[end])) ==> digits_end(s, pos) == end,
        (forall|k: int| pos <= k < end ==> is_alpha(#[trigger] s[k]) || is_digit(s[k])) && (end
            < s.len() ==> !(is_alpha(s[end]) || is_digit(s[end]))) ==> word_end(s, pos) == end,
    decreases end - pos,
{
    if pos < end {
        lemma_run_end(s, pos + 1, end);
    }
}

/// Digits write a number that is not negative and that grows with every
/// further digit.
pub proof fn lemma_digits_value(s: Seq<char>, from: int, to: int, later: int)
    requires
        0 <= from <= to <= later <= s.len(),
        forall|k: int| from <= k < later ==> is_digit(#[trigger] s[k]),
    ensures
        0 <= digits_value(s, from, to) <= digits_value(s, from, later),
    decreases later - from,
{
    if to < later {
        lemma_digits_value(s, from, to, later - 1);
        assert(is_digit(s[later - 1]));
    } else if from < to {
        lemma_digits_value(s, from, to - 1, later - 1);
        assert(is_digit(s[to - 1]));
    }
}

/// The outcome that a result of reading stands for.
pub open spec fn outcome_of(r: Result<(Rc<Expr>, usize), usize>) -> Outcome {
    match r {
        Ok((e, end)) => Ok((*e, end as int)),
        Err(p) => Err(p as int),
    }
}

/// Text that is being read, with its length in characters.
pub struct Reader<'a> {
    pub text: &'a str,
    pub len: usize,
}

impl<'a> Reader<'a> {
    /// Whether the length is that of the text.
    pub open spec fn wf(&self) -> bool {
        self.len == self.text@.len()
    }

    /// A reader of the text.
    pub fn new(text: &'a str) -> (r: Reader<'a>)
        ensures
            r.wf(),
            r.text == text,
    {
        Reader { text, len: text.unicode_len() }
    }

    /// The text from a position on.
    pub fn rest(&self, pos: usize) -> (r: &'a str)
        requires
            self.wf(),
            pos <= self.len,
        ensures
            r@ == self.text@.subrange(pos as int, self.len as int),
    {
        self.text.substring_char(pos, self.len)
    }

    fn is_space_at(&self, pos: usize) -> (b: bool)
        requires
            self.wf(),
        ensures
            b == (pos < self.len && is_space(self.text@[pos as int])),
    {
        if pos < self.len {
            let c = self.text.get_char(pos);
            c == ' ' || c == '\t' || c == '\n' || c == '\r'
        } else {
            false
        }
    }

    fn is_digit_at(&self, pos: usize) -> (b: bool)
        requires
            self.wf(),
        ensures
            b == (pos < self.len && is_digit(self.text@[pos as int])),
    {
        if pos < self.len {
            let c = self.text.get_char(pos);
            c >= '0' && c <= '9'
        } else {
            false
        }
    }

    fn is_alpha_at(&self, pos: usize) -> (b: bool)
        requires
            self.wf(),
        ensures
            b == (pos < self.len && is_alpha(self.text@[pos as int])),
    {
        if pos < self.len {
            let c = self.text.get_char(pos);
            (c >= 'a' && c <= 'z') || (c >= 'A' && c <= 'Z')
        } else {
            false
        }
    }

    fn is_char_at(&self, pos: usize, c: char) -> (b: bool)
        requires
            self.wf(),
        ensures
            b == (pos < self.len && self.text@[pos as int] == c),
    {
        if pos < self.len {
            self.text.get_char(pos) == c
        } else {
            false
        }
    }

    /// The first position from `pos` on that holds no space.
    pub fn skip_spaces(&self, pos: usize) -> (r: usize)
        requires
            self.wf(),
            pos <= self.len,
        ensures
            r == skip_spaces(self.text@, pos as int),
            pos <= r <= self.len,
    {
        let mut i = pos;
        while self.is_space_at(i)
            invariant
                self.wf(),
                pos <= i <= self.len,
                forall|k: int| pos <= k < i ==> is_space(#[trigger] self.text@[k]),
            decreases self.len - i,
        {
            i = i + 1;
        }
        proof {
            lemma_run_end(self.text@, pos as int, i as int);
        }
        i
    }

    /// The first position from `pos` on that holds neither a letter nor a
    /// digit.
    pub fn word_end(&self, pos: usize) -> (r: usize)
        requires
            self.wf(),
            pos <= self.len,
        ensures
            r == word_end(self.text@, pos as int),
            pos <= r <= self.len,
    {
        let mut i = pos;
        while self.is_alpha_at(i) || self.is_digit_at(i)
            invariant
                self.wf(),
                pos <= i <= self.len,
                forall|k: int|
                    pos <= k < i ==> is_alpha(#[trigger] self.text@[k]) || is_digit(self.text@[k]),
            decreases self.len - i,
        {
            i = i + 1;
        }
        proof {
            lemma_run_end(self.text@, pos as int, i as int);
        }
        i
    }

    /// The position behind the signs at `pos`, and whether the minus signs
    /// among them are odd in number.
    pub fn signs(&self, pos: usize) -> (r: (usize, bool))
        requires
            self.wf(),
            pos <= self.len,
        ensures
            r.0 == signs_end(self.text@, pos as int),
            r.1 == negated(self.text@, pos as int),
            pos <= r.0 <= self.len,
        decreases self.len - pos,
    {
        let p = self.skip_spaces(pos);
        if self.is_char_at(p, '+') || self.is_char_at(p, '-') {
            let minus = self.is_char_at(p, '-');
            let q = self.skip_spaces(p + 1);
            let (end, odd) = self.signs(q);
            (end, minus != odd)
        } else {
            (pos, false)
        }
    }

    /// Reads an unsigned whole number.
    pub fn number_at(&self, pos: usize, env: &mut Environment) -> (r: Result<(Rc<Expr>, usize), usize>)
        requires
            self.wf(),
            pos <= self.len,
        ensures
            outcome_of(r) == number_at(self.text@, pos as int),
            r matches Ok((_, end)) ==> pos < end <= self.len,
            r matches Err(p) ==> p <= self.len,
            final(env).names() == old(env).names(),
            old(env).cache().subset_of(final(env).cache()),
    {
        if !self.is_digit_at(pos) {
            return Err(pos);
        }
        let ghost s = self.text@;
        let ghost end = digits_end(s, pos as int);
        proof {
            lemma_digits_end(s, pos as int);
        }
        let mut value: i64 = 0;
        let mut i = pos;
        while self.is_digit_at(i)
            invariant
                self.wf(),
                s == self.text@,
                end == digits_end(s, pos as int),
                pos <= i <= end <= self.len,
                forall|k: int| pos <= k < end ==> is_digit(#[trigger] s[k]),
                end < s.len() ==> !is_digit(s[end as int]),
                value == digits_value(s, pos as int, i as int),
                0 <= value,
            decreases self.len - i,
        {
            let c = self.text.get_char(i);
            let d = (c as u32 - '0' as u32) as i64;
            proof {
                lemma_digits_value(s, pos as int, i + 1, end);
            }
            if value > (i64::MAX - d) / 10 {
                return Err(pos);
            }
            value = value * 10 + d;
            i = i + 1;
        }
        Ok((Expr::new_num(value, env), i))
    }

    /// Reads a variable.
    pub fn variable_at(&self, pos: usize, env: &mut Environment) -> (r: Result<
        (Rc<Expr>, usize),
        usize,
    >)
        requires
            self.wf(),
            pos <= self.len,
        ensures
            outcome_of(r) == variable_at(self.text@, pos as int, old(env).names()).0,
            final(env).names() == variable_at(self.text@, pos as int, old(env).names()).1,
            r matches Ok((_, end)) ==> pos < end <= self.len,
            r matches Err(p) ==> p <= self.len,
            old(env).cache().subset_of(final(env).cache()),
    {
        if !self.is_alpha_at(pos) {
            return Err(pos);
        }
        let end = self.word_end(pos);
        proof {
            lemma_word_end(self.text@, pos + 1);
        }
        let name = String::from_str(self.text.substring_char(pos, end));
        let v = match env.search_var(&name) {
            Some(v) => v,
            None => env.extend_var(name),
        };
        Ok((Expr::new_var(v.id(), env), end))
    }
}

impl<'a> Reader<'a> {
    /// The function that the word from `pos` up to `end` names, if it names
    /// one.
    pub fn function_at(&self, pos: usize, end: usize) -> (r: Option<Uop>)
        requires
            self.wf(),
            pos <= end <= self.len,
        ensures
            r == function_of(self.text@.subrange(pos as int, end as int)),
    {
        let ghost word = self.text@.subrange(pos as int, end as int);
        if end - pos != 3 {
            assert(seq!['s', 'i', 'n'].len() == 3 && seq!['c', 'o', 's'].len() == 3 && seq![
                't',
                'a',
                'n',
            ].len() == 3 && seq!['l', 'o', 'g'].len() == 3 && seq!['e', 'x', 'p'].len() == 3);
            return None;
        }
        let a = self.text.get_char(pos);
        let b = self.text.get_char(pos + 1);
        let c = self.text.get_char(pos + 2);
        assert(word =~= seq![a, b, c]);
        assert(seq![a, b, c][0] == a && seq![a, b, c][1] == b && seq![a, b, c][2] == c);
        if a == 's' && b == 'i' && c == 'n' {
            Some(Uop::Sin)
        } else if a == 'c' && b == 'o' && c == 's' {
            Some(Uop::Cos)
        } else if a == 't' && b == 'a' && c == 'n' {
            Some(Uop::Tan)
        } else if a == 'l' && b == 'o' && c == 'g' {
            Some(Uop::Log)
        } else if a == 'e' && b == 'x' && c == 'p' {
            Some(Uop::Exp)
        } else {
            assert(seq!['s', 'i', 'n'][0] == 's' && seq!['s', 'i', 'n'][1] == 'i' && seq![
                's',
                'i',
                'n',
            ][2] == 'n');
            assert(seq!['c', 'o', 's'][0] == 'c' && seq!['c', 'o', 's'][1] == 'o' && seq![
                'c',
                'o',
                's',
            ][2] == 's');
            assert(seq!['t', 'a', 'n'][0] == 't' && seq!['t', 'a', 'n'][1] == 'a' && seq![
                't',
                'a',
                'n',
            ][2] == 'n');
            assert(seq!['l', 'o', 'g'][0] == 'l' && seq!['l', 'o', 'g'][1] == 'o' && seq![
                'l',
                'o',
                'g',
            ][2] == 'g');
            assert(seq!['e', 'x', 'p'][0] == 'e' && seq!['e', 'x', 'p'][1] == 'x' && seq![
                'e',
                'x',
                'p',
            ][2] == 'p');
            None
        }
    }

    /// Reads an expression in brackets.
    pub fn paren_at(&self, pos: usize, env: &mut Environment) -> (r: Result<(Rc<Expr>, usize), usize>)
        requires
            self.wf(),
            pos <= self.len,
        ensures
            outcome_of(r) == paren_at(self.text@, pos as int, old(env).names()).0,
            final(env).names() == paren_at(self.text@, pos as int, old(env).names()).1,
            r matches Ok((_, end)) ==> pos < end <= self.len,
            r matches Err(p) ==> p <= self.len,
            old(env).cache().subset_of(final(env).cache()),
        decreases self.len - pos, 0int,
    {
        if !self.is_char_at(pos, '(') {
            return Err(pos);
        }
        match self.expr_at(pos + 1, env) {
            Ok((e, end)) => {
                if self.is_char_at(end, ')') {
                    Ok((e, end + 1))
                } else {
                    Err(end)
                }
            },
            Err(p) => Err(p),
        }
    }

    /// Reads a function of an expression in brackets, a number, a variable
    /// or an expression in brackets.
    pub fn atom_at(&self, pos: usize, env: &mut Environment) -> (r: Result<(Rc<Expr>, usize), usize>)
        requires
            self.wf(),
            pos <= self.len,
        ensures
            outcome_of(r) == atom_at(self.text@, pos as int, old(env).names()).0,
            final(env).names() == atom_at(self.text@, pos as int, old(env).names()).1,
            r matches Ok((_, end)) ==> pos < end <= self.len,
            r matches Err(p) ==> p <= self.len,
            old(env).cache().subset_of(final(env).cache()),
        decreases self.len - pos, 1int,
    {
        if pos >= self.len {
            return Err(pos);
        }
        if self.is_digit_at(pos) {
            return self.number_at(pos, env);
        }
        if self.is_alpha_at(pos) {
            let end = self.word_end(pos);
            proof {
                lemma_word_end(self.text@, pos + 1);
            }
            match self.function_at(pos, end) {
                Some(op) => {
                    if self.is_char_at(end, '(') {
                        return match self.paren_at(end, env) {
                            Ok((e, after)) => Ok((Expr::new_unop(op, e, env), after)),
                            Err(p) => Err(p),
                        };
                    }
                },
                None => {},
            }
            return self.variable_at(pos, env);
        }
        self.paren_at(pos, env)
    }

    /// Reads signs and an atom.
    pub fn unary_at(&self, pos: usize, env: &mut Environment) -> (r: Result<(Rc<Expr>, usize), usize>)
        requires
            self.wf(),
            pos <= self.len,
        ensures
            outcome_of(r) == unary_at(self.text@, pos as int, old(env).names()).0,
            final(env).names() == unary_at(self.text@, pos as int, old(env).names()).1,
            r matches Ok((_, end)) ==> pos < end <= self.len,
            r matches Err(p) ==> p <= self.len,
            old(env).cache().subset_of(final(env).cache()),
        decreases self.len - pos, 2int,
    {
        let (start, odd) = self.signs(pos);
        match self.atom_at(start, env) {
            Ok((e, end)) => {
                if odd {
                    Ok((Expr::new_unop(Uop::Neg, e, env), end))
                } else {
                    Ok((e, end))
                }
            },
            Err(p) => Err(p),
        }
    }

    /// Reads the powers behind a base.
    pub fn pow_tail(&self, pos: usize, base: Rc<Expr>, env: &mut Environment) -> (r: (
        Rc<Expr>,
        usize,
    ))
        requires
            self.wf(),
            pos <= self.len,
        ensures
            (*r.0, r.1 as int, final(env).names()) == pow_tail(
                self.text@,
                pos as int,
                *base,
                old(env).names(),
            ),
            pos <= r.1 <= self.len,
            old(env).cache().subset_of(final(env).cache()),
        decreases self.len - pos, 3int,
    {
        let p = self.skip_spaces(pos);
        if !self.is_char_at(p, '^') {
            return (base, pos);
        }
        let q = self.skip_spaces(p + 1);
        match self.unary_at(q, env) {
            Ok((v, end)) => {
                let (rest, after) = self.pow_tail(end, v, env);
                (Expr::new_binop(Bop::Pow, base, rest, env), after)
            },
            Err(_) => (base, pos),
        }
    }

    /// Reads an operand and the powers behind it.
    pub fn factor_at(&self, pos: usize, env: &mut Environment) -> (r: Result<(Rc<Expr>, usize), usize>)
        requires
            self.wf(),
            pos <= self.len,
        ensures
            outcome_of(r) == factor_at(self.text@, pos as int, old(env).names()).0,
            final(env).names() == factor_at(self.text@, pos as int, old(env).names()).1,
            r matches Ok((_, end)) ==> pos < end <= self.len,
            r matches Err(p) ==> p <= self.len,
            old(env).cache().subset_of(final(env).cache()),
        decreases self.len - pos, 4int,
    {
        match self.unary_at(pos, env) {
            Ok((u, end)) => {
                let (e, after) = self.pow_tail(end, u, env);
                Ok((e, after))
            },
            Err(p) => Err(p),
        }
    }

    /// Reads the products and quotients behind `acc`.
    pub fn mul_tail(&self, pos: usize, acc: Rc<Expr>, env: &mut Environment) -> (r: (
        Rc<Expr>,
        usize,
    ))
        requires
            self.wf(),
            pos <= self.len,
        ensures
            (*r.0, r.1 as int, final(env).names()) == mul_tail(
                self.text@,
                pos as int,
                *acc,
                old(env).names(),
            ),
            pos <= r.1 <= self.len,
            old(env).cache().subset_of(final(env).cache()),
        decreases self.len - pos, 5int,
    {
        let p = self.skip_spaces(pos);
        let times = self.is_char_at(p, '*');
        if !times && !self.is_char_at(p, '/') {
            return (acc, pos);
        }
        let q = self.skip_spaces(p + 1);
        match self.factor_at(q, env) {
            Ok((f, end)) => {
                let op = if times {
                    Bop::Mul
                } else {
                    Bop::Div
                };
                let next = self.skip_spaces(end);
                let joined = Expr::new_binop(op, acc, f, env);
                self.mul_tail(next, joined, env)
            },
            Err(_) => (acc, pos),
        }
    }

    /// Reads a factor and the products and quotients behind it.
    pub fn term_at(&self, pos: usize, env: &mut Environment) -> (r: Result<(Rc<Expr>, usize), usize>)
        requires
            self.wf(),
            pos <= self.len,
        ensures
            outcome_of(r) == term_at(self.text@, pos as int, old(env).names()).0,
            final(env).names() == term_at(self.text@, pos as int, old(env).names()).1,
            r matches Ok((_, end)) ==> pos < end <= self.len,
            r matches Err(p) ==> p <= self.len,
            old(env).cache().subset_of(final(env).cache()),
        decreases self.len - pos, 6int,
    {
        match self.factor_at(pos, env) {
            Ok((f, end)) => {
                let (e, after) = self.mul_tail(end, f, env);
                Ok((e, after))
            },
            Err(p) => Err(p),
        }
    }

    /// Reads the sums and differences behind `acc`.
    pub fn add_tail(&self, pos: usize, acc: Rc<Expr>, env: &mut Environment) -> (r: (
        Rc<Expr>,
        usize,
    ))
        requires
            self.wf(),
            pos <= self.len,
        ensures
            (*r.0, r.1 as int, final(env).names()) == add_tail(
                self.text@,
                pos as int,
                *acc,
                old(env).names(),
            ),
            pos <= r.1 <= self.len,
            old(env).cache().subset_of(final(env).cache()),
        decreases self.len - pos, 7int,
    {
        let p = self.skip_spaces(pos);
        let plus = self.is_char_at(p, '+');
        if !plus && !self.is_char_at(p, '-') {
            return (acc, pos);
        }
        let q = self.skip_spaces(p + 1);
        match self.term_at(q, env) {
            Ok((t, end)) => {
                let op = if plus {
                    Bop::Add
                } else {
                    Bop::Sub
                };
                let next = self.skip_spaces(end);
                let joined = Expr::new_binop(op, acc, t, env);
                self.add_tail(next, joined, env)
            },
            Err(_) => (acc, pos),
        }
    }

    /// Reads an expression.
    pub fn expr_at(&self, pos: usize, env: &mut Environment) -> (r: Result<(Rc<Expr>, usize), usize>)
        requires
            self.wf(),
            pos <= self.len,
        ensures
            outcome_of(r) == expr_at(self.text@, pos as int, old(env).names()).0,
            final(env).names() == expr_at(self.text@, pos as int, old(env).names()).1,
            r matches Ok((_, end)) ==> pos < end <= self.len,
            r matches Err(p) ==> p <= self.len,
            old(env).cache().subset_of(final(env).cache()),
        decreases self.len - pos, 8int,
    {
        let start = self.skip_spaces(pos);
        match self.term_at(start, env) {
            Ok((t, end)) => {
                let next = self.skip_spaces(end);
                let (e, after) = self.add_tail(next, t, env);
                Ok((e, after))
            },
            Err(p) => Err(p),
        }
    }
}

/// What stands behind the part that was read, with the expression, or what
/// stands from the place on at which nothing fitting stood.
pub open spec fn remainder_of(s: Seq<char>, o: Outcome) -> Result<(Seq<char>, Expr), Seq<char>> {
    match o {
        Ok((e, end)) => Ok((s.subrange(end, s.len() as int), e)),
        Err(p) => Err(s.subrange(p, s.len() as int)),
    }
}

/// The text and expression of a result.
pub open spec fn result_view(r: Result<(&str, Rc<Expr>), &str>) -> Result<
    (Seq<char>, Expr),
    Seq<char>,
> {
    match r {
        Ok((rest, e)) => Ok((rest@, *e)),
        Err(rest) => Err(rest@),
    }
}

/// The variables at `pos`, each with the spaces around it, and the position
/// behind them.
pub open spec fn variables_at(s: Seq<char>, pos: int, names: Names) -> (Seq<Expr>, int, Names)
    decreases s.len() - pos,
{
    let p = skip_spaces(s, pos);
    if 0 <= pos <= p <= s.len() {
        let (r, n1) = variable_at(s, p, names);
        match r {
            Ok((v, end)) => {
                let next = skip_spaces(s, end);
                if p < end <= next <= s.len() {
                    let (rest, after, n2) = variables_at(s, next, n1);
                    (seq![v] + rest, after, n2)
                } else {
                    (Seq::empty(), pos, names)
                }
            },
            Err(_) => (Seq::empty(), pos, names),
        }
    } else {
        (Seq::empty(), pos, names)
    }
}

/// The expressions behind shared pointers.
pub open spec fn pointees(v: Seq<Rc<Expr>>) -> Seq<Expr> {
    Seq::new(v.len(), |i: int| *v[i])
}

impl<'a> Reader<'a> {
    fn finish(&self, r: Result<(Rc<Expr>, usize), usize>) -> (res: Result<(&'a str, Rc<Expr>), &'a str>)
        requires
            self.wf(),
            r matches Ok((_, end)) ==> end <= self.len,
            r matches Err(p) ==> p <= self.len,
        ensures
            result_view(res) == remainder_of(self.text@, outcome_of(r)),
    {
        match r {
            Ok((e, end)) => Ok((self.rest(end), e)),
            Err(p) => Err(self.rest(p)),
        }
    }

    /// Reads variables, each with the spaces around it, and adds them to
    /// `out`.
    pub fn variables_at(&self, pos: usize, env: &mut Environment, out: &mut Vec<Rc<Expr>>) -> (after:
        usize)
        requires
            self.wf(),
            pos <= self.len,
        ensures
            pos <= after <= self.len,
            (
                pointees(final(out)@),
                after as int,
                final(env).names(),
            ) == ({
                let (found, end, names) = variables_at(self.text@, pos as int, old(env).names());
                (pointees(old(out)@) + found, end, names)
            }),
            old(env).cache().subset_of(final(env).cache()),
        decreases self.len - pos,
    {
        let p = self.skip_spaces(pos);
        match self.variable_at(p, env) {
            Ok((v, end)) => {
                let next = self.skip_spaces(end);
                let ghost item = pointee(&v);
                out.push(v);
                let after = self.variables_at(next, env, out);
                proof {
                    let (rest, _e, _n) = variables_at(
                        self.text@,
                        next as int,
                        variable_at(self.text@, p as int, old(env).names()).1,
                    );
                    assert(pointees(old(out)@.push(v)) =~= pointees(old(out)@).push(item));
                    assert(pointees(old(out)@).push(item) + rest =~= pointees(old(out)@) + (
                    seq![item] + rest));
                }
                after
            },
            Err(_) => {
                assert(pointees(out@) =~= pointees(old(out)@) + Seq::<Expr>::empty());
                pos
            },
        }
    }
}

/// Reads an unsigned whole number at the beginning of the text.
pub fn unsigned_number<'a>(input: &'a str, env: &mut Environment) -> (r: Result<
    (&'a str, Rc<Expr>),
    &'a str,
>)
    ensures
        result_view(r) == remainder_of(input@, number_at(input@, 0)),
        final(env).names() == old(env).names(),
        old(env).cache().subset_of(final(env).cache()),
{
    let reader = Reader::new(input);
    let r = reader.number_at(0, env);
    reader.finish(r)
}

/// Reads a variable at the beginning of the text.
pub fn variable<'a>(input: &'a str, env: &mut Environment) -> (r: Result<
    (&'a str, Rc<Expr>),
    &'a str,
>)
    ensures
        result_view(r) == remainder_of(input@, variable_at(input@, 0, old(env).names()).0),
        final(env).names() == variable_at(input@, 0, old(env).names()).1,
        old(env).cache().subset_of(final(env).cache()),
{
    let reader = Reader::new(input);
    let r = reader.variable_at(0, env);
    reader.finish(r)
}

/// Reads one or more variables, with spaces around them.
pub fn variables<'a>(input: &'a str, env: &mut Environment) -> (r: Result<
    (&'a str, Vec<Rc<Expr>>),
    &'a str,
>)
    ensures
        ({
            let (found, end, names) = variables_at(input@, 0, old(env).names());
            &&& final(env).names() == names
            &&& match r {
                Ok((rest, vars)) => found.len() > 0 && pointees(vars@) == found && rest@
                    == input@.subrange(end, input@.len() as int),
                Err(rest) => found.len() == 0 && rest@ == input@.subrange(
                    skip_spaces(input@, 0),
                    input@.len() as int,
                ),
            }
        }),
        old(env).cache().subset_of(final(env).cache()),
{
    let reader = Reader::new(input);
    let mut out: Vec<Rc<Expr>> = Vec::new();
    let after = reader.variables_at(0, env, &mut out);
    proof {
        let (found, _e, _n) = variables_at(input@, 0, old(env).names());
        assert(pointees(Seq::<Rc<Expr>>::empty()) + found =~= found);
    }
    if out.len() == 0 {
        Err(reader.rest(reader.skip_spaces(0)))
    } else {
        Ok((reader.rest(after), out))
    }
}

/// Reads signs and an atom at the beginning of the text.
pub fn unary<'a>(input: &'a str, env: &mut Environment) -> (r: Result<(&'a str, Rc<Expr>), &'a str>)
    ensures
        result_view(r) == remainder_of(input@, unary_at(input@, 0, old(env).names()).0),
        final(env).names() == unary_at(input@, 0, old(env).names()).1,
        old(env).cache().subset_of(final(env).cache()),
{
    let reader = Reader::new(input);
    let r = reader.unary_at(0, env);
    reader.finish(r)
}

/// Reads an operand and its powers at the beginning of the text.
pub fn factor<'a>(input: &'a str, env: &mut Environment) -> (r: Result<(&'a str, Rc<Expr>), &'a str>)
    ensures
        result_view(r) == remainder_of(input@, factor_at(input@, 0, old(env).names()).0),
        final(env).names() == factor_at(input@, 0, old(env).names()).1,
        old(env).cache().subset_of(final(env).cache()),
{
    let reader = Reader::new(input);
    let r = reader.factor_at(0, env);
    reader.finish(r)
}

/// Reads products and quotients at the beginning of the text.
pub fn term<'a>(input: &'a str, env: &mut Environment) -> (r: Result<(&'a str, Rc<Expr>), &'a str>)
    ensures
        result_view(r) == remainder_of(input@, term_at(input@, 0, old(env).names()).0),
        final(env).names() == term_at(input@, 0, old(env).names()).1,
        old(env).cache().subset_of(final(env).cache()),
{
    let reader = Reader::new(input);
    let r = reader.term_at(0, env);
    reader.finish(r)
}

/// Reads an expression at the beginning of the text. The result holds what
/// stands behind the expression; where no expression stands, the error
/// holds the text from the place on at which reading gave up.
pub fn expr<'a>(input: &'a str, env: &mut Environment) -> (r: Result<(&'a str, Rc<Expr>), &'a str>)
    ensures
        result_view(r) == remainder_of(input@, expr_at(input@, 0, old(env).names()).0),
        final(env).names() == expr_at(input@, 0, old(env).names()).1,
        old(env).cache().subset_of(final(env).cache()),
{
    let reader = Reader::new(input);
    let r = reader.expr_at(0, env);
    reader.finish(r)
}

} // verus!
