use vstd::prelude::*;
use crate::semantics::{run, step};
use crate::text::{
    alphanumeric, append, chars_of, copy_range, is_alphanumeric, is_space, is_space_char, same,
};

verus! {

/// Depth of the evaluation stack.
pub const STACK_DEPTH: usize = 32;

/// One instruction of the stack machine.
#[derive(Clone, Copy, Debug, PartialEq, Eq, Structural)]
pub enum OpCode {
    LoadParam(usize),
    LoadConst(usize),
    Add,
    Sub,
    Mul,
    Div,
    Pow,
}

/// Why an expression does not compile.
#[derive(Clone, Copy, Debug, PartialEq, Eq, Structural)]
pub enum CompileError {
    /// The input is empty.
    Empty,
    /// The input holds white space only.
    Blank,
    /// An operand is missing.
    EmptySubexpression,
    /// A parenthesised operand does not end with `)`.
    UnmatchedParenthesis,
    /// The inside of a parenthesised operand is not balanced.
    UnbalancedParentheses,
    /// An operand holds a character that is neither alphanumeric, `_` nor `.`.
    InvalidCharacters,
    /// An operand spells infinity or not-a-number.
    NonFinite,
    /// An operand is neither a number nor a known parameter.
    UnknownIdentifier,
    /// The expression needs more than `STACK_DEPTH` stack slots.
    TooDeep,
}

/// Why an evaluation fails.
#[derive(Clone, Copy, Debug, PartialEq, Eq, Structural)]
pub enum EvalError {
    ParamCountMismatch,
    DivByZero,
    Malformed,
}

// ---------------------------------------------------------------- grammar

/// The operators split on at each precedence level: 0 additive, 1 multiplicative, 2 power.
pub open spec fn is_op(level: u8, c: char) -> bool {
    if level == 0 {
        c == '+' || c == '-'
    } else if level == 1 {
        c == '*' || c == '/'
    } else {
        c == '^'
    }
}

/// Scanning `s[..i]` from the right at nesting `depth`: the rightmost operator of `level`
/// outside parentheses.
pub open spec fn scan_op(s: Seq<char>, level: u8, i: int, depth: int) -> Option<int>
    decreases i,
{
    if i <= 0 || i > s.len() {
        None
    } else if s[i - 1] == ')' {
        scan_op(s, level, i - 1, depth + 1)
    } else if s[i - 1] == '(' {
        scan_op(s, level, i - 1, depth - 1)
    } else if depth == 0 && is_op(level, s[i - 1]) {
        Some(i - 1)
    } else {
        scan_op(s, level, i - 1, depth)
    }
}

pub open spec fn find_op(s: Seq<char>, level: u8) -> Option<int> {
    scan_op(s, level, s.len() as int, 0)
}

/// Parentheses of `s[i..]` close properly, starting at nesting `depth`.
pub open spec fn balanced_from(s: Seq<char>, i: int, depth: int) -> bool
    decreases s.len() - i,
{
    if i < 0 || i >= s.len() {
        depth == 0
    } else if s[i] == '(' {
        balanced_from(s, i + 1, depth + 1)
    } else if s[i] == ')' {
        depth - 1 >= 0 && balanced_from(s, i + 1, depth - 1)
    } else {
        balanced_from(s, i + 1, depth)
    }
}

pub open spec fn balanced(s: Seq<char>) -> bool {
    balanced_from(s, 0, 0)
}

pub open spec fn atom_char(c: char) -> bool {
    alphanumeric(c) || c == '_' || c == '.'
}

pub open spec fn is_digit(c: char) -> bool {
    '0' <= c && c <= '9'
}

pub open spec fn all_digits(s: Seq<char>) -> bool {
    forall|i: int| 0 <= i < s.len() ==> is_digit(#[trigger] s[i])
}

/// First index of a character satisfying `f` in `s`, or `s.len()`.
pub open spec fn first_index(s: Seq<char>, f: spec_fn(char) -> bool) -> int {
    if exists|i: int| 0 <= i < s.len() && f(s[i]) {
        choose|i: int|
            0 <= i < s.len() && f(s[i]) && forall|j: int| 0 <= j < i ==> !f(#[trigger] s[j])
    } else {
        s.len() as int
    }
}

pub open spec fn is_exp_mark(c: char) -> bool {
    c == 'e' || c == 'E'
}

/// Digits with at most one `.`, and at least one digit.
pub open spec fn is_mantissa(m: Seq<char>) -> bool {
    let d = first_index(m, |c: char| c == '.');
    if d == m.len() {
        m.len() > 0 && all_digits(m)
    } else {
        m.len() > 1 && all_digits(m.subrange(0, d)) && all_digits(m.subrange(d + 1, m.len() as int))
    }
}

/// A decimal literal as the standard float parser reads it, for text without signs.
pub open spec fn is_decimal(s: Seq<char>) -> bool {
    let k = first_index(s, |c: char| is_exp_mark(c));
    is_mantissa(s.subrange(0, k)) && (k == s.len() || (k + 1 < s.len() && all_digits(
        s.subrange(k + 1, s.len() as int),
    )))
}

/// `c` is `w`, or its upper-case ASCII form.
pub open spec fn fold_eq(c: char, w: char) -> bool {
    if 'A' <= c && c <= 'Z' {
        (c as u32) + 32 == (w as u32)
    } else {
        c == w
    }
}

pub open spec fn folds_to(s: Seq<char>, w: Seq<char>) -> bool {
    s.len() == w.len() && forall|i: int| 0 <= i < s.len() ==> fold_eq(#[trigger] s[i], w[i])
}

/// `inf`, `infinity` or `nan` in any letter case: parsed, but not finite.
pub open spec fn is_non_finite_word(s: Seq<char>) -> bool {
    folds_to(s, seq!['i', 'n', 'f']) || folds_to(s, seq!['i', 'n', 'f', 'i', 'n', 'i', 't', 'y'])
        || folds_to(s, seq!['n', 'a', 'n'])
}

/// Index of the first entry of `names` equal to `s`.
pub open spec fn position_of(names: Seq<Seq<char>>, s: Seq<char>) -> Option<int> {
    if exists|i: int| 0 <= i < names.len() && names[i] == s {
        Some(
            choose|i: int|
                0 <= i < names.len() && names[i] == s && forall|j: int|
                    0 <= j < i ==> #[trigger] names[j] != s,
        )
    } else {
        None
    }
}

/// `d` without its leading zeros.
pub open spec fn strip_leading_zeros(d: Seq<char>) -> Seq<char>
    decreases d.len(),
{
    if d.len() > 0 && d[0] == '0' {
        strip_leading_zeros(d.drop_first())
    } else {
        d
    }
}

/// The number of zeros that end `d`.
pub open spec fn trailing_zeros(d: Seq<char>) -> nat
    decreases d.len(),
{
    if d.len() > 0 && d.last() == '0' {
        1 + trailing_zeros(d.drop_last())
    } else {
        0
    }
}

/// The integer a string of decimal digits spells.
pub open spec fn digits_value(d: Seq<char>) -> int
    decreases d.len(),
{
    if d.len() == 0 {
        0
    } else {
        10 * digits_value(d.drop_last()) + (d.last() as int - '0' as int)
    }
}

/// Most significant digits of an exponent that the normal form handles.
pub const MAX_EXPONENT_DIGITS: usize = 30;

/// The normal form of a decimal literal: its significant digits `g` and exponent `x`,
/// its value being `g * 10^x` (zero has no digits). `None` for an exponent longer
/// than `MAX_EXPONENT_DIGITS` digits.
pub open spec fn norm(s: Seq<char>) -> Option<(Seq<char>, int)> {
    let k = first_index(s, |c: char| is_exp_mark(c));
    let m = s.subrange(0, k);
    let ex = if k < s.len() {
        strip_leading_zeros(s.subrange(k + 1, s.len() as int))
    } else {
        Seq::empty()
    };
    let d = first_index(m, |c: char| c == '.');
    let fp = if d < m.len() {
        m.subrange(d + 1, m.len() as int)
    } else {
        Seq::empty()
    };
    let g = strip_leading_zeros(m.subrange(0, d) + fp);
    if ex.len() > MAX_EXPONENT_DIGITS {
        None
    } else if g.len() == 0 {
        Some((Seq::empty(), 0))
    } else {
        let t = trailing_zeros(g);
        Some((g.subrange(0, g.len() - t), digits_value(ex) - fp.len() + t))
    }
}

/// Two literals denote the same number: equal normal forms, or the same text where
/// there is none.
pub open spec fn same_literal(a: Seq<char>, b: Seq<char>) -> bool {
    match (norm(a), norm(b)) {
        (Some(x), Some(y)) => x == y,
        (None, None) => a == b,
        _ => false,
    }
}

/// Index of the first literal of `pool` that denotes the same number as `s`.
pub open spec fn slot_of(pool: Seq<Seq<char>>, s: Seq<char>) -> Option<int> {
    if exists|i: int| 0 <= i < pool.len() && same_literal(pool[i], s) {
        Some(
            choose|i: int|
                0 <= i < pool.len() && same_literal(pool[i], s) && forall|j: int|
                    0 <= j < i ==> !same_literal(#[trigger] pool[j], s),
        )
    } else {
        None
    }
}

/// The pool slot of literal `s`, and the pool after it is added if its number is new.
pub open spec fn intern(pool: Seq<Seq<char>>, s: Seq<char>) -> (int, Seq<Seq<char>>) {
    match slot_of(pool, s) {
        Some(i) => (i, pool),
        None => (pool.len() as int, pool.push(s)),
    }
}

/// Compiler state: instructions so far and the constant pool.
pub type Code = (Seq<OpCode>, Seq<Seq<char>>);

pub open spec fn emit(c: Code, op: OpCode) -> Code {
    (c.0.push(op), c.1)
}

/// Additive level: split at the rightmost top-level `+` or `-`.
pub open spec fn c_add(names: Seq<Seq<char>>, s: Seq<char>, c: Code) -> Result<Code, CompileError>
    decreases s.len(), 3int,
{
    match find_op(s, 0) {
        Some(pos) => if 0 <= pos < s.len() {
            match c_add(names, s.subrange(0, pos), c) {
                Err(e) => Err(e),
                Ok(c1) => match c_mul(names, s.subrange(pos + 1, s.len() as int), c1) {
                    Err(e) => Err(e),
                    Ok(c2) => Ok(
                        emit(
                            c2,
                            if s[pos] == '+' {
                                OpCode::Add
                            } else {
                                OpCode::Sub
                            },
                        ),
                    ),
                },
            }
        } else {
            Err(CompileError::EmptySubexpression)
        },
        None => c_mul(names, s, c),
    }
}

/// Multiplicative level: split at the rightmost top-level `*` or `/`.
pub open spec fn c_mul(names: Seq<Seq<char>>, s: Seq<char>, c: Code) -> Result<Code, CompileError>
    decreases s.len(), 2int,
{
    match find_op(s, 1) {
        Some(pos) => if 0 <= pos < s.len() {
            match c_mul(names, s.subrange(0, pos), c) {
                Err(e) => Err(e),
                Ok(c1) => match c_pow(names, s.subrange(pos + 1, s.len() as int), c1) {
                    Err(e) => Err(e),
                    Ok(c2) => Ok(
                        emit(
                            c2,
                            if s[pos] == '*' {
                                OpCode::Mul
                            } else {
                                OpCode::Div
                            },
                        ),
                    ),
                },
            }
        } else {
            Err(CompileError::EmptySubexpression)
        },
        None => c_pow(names, s, c),
    }
}

/// Power level: split at the rightmost top-level `^`; both sides are operands.
pub open spec fn c_pow(names: Seq<Seq<char>>, s: Seq<char>, c: Code) -> Result<Code, CompileError>
    decreases s.len(), 1int,
{
    match find_op(s, 2) {
        Some(pos) => if 0 <= pos < s.len() {
            match c_atom(names, s.subrange(0, pos), c) {
                Err(e) => Err(e),
                Ok(c1) => match c_atom(names, s.subrange(pos + 1, s.len() as int), c1) {
                    Err(e) => Err(e),
                    Ok(c2) => Ok(emit(c2, OpCode::Pow)),
                },
            }
        } else {
            Err(CompileError::EmptySubexpression)
        },
        None => c_atom(names, s, c),
    }
}

/// An operand: a parenthesised expression, a number or a parameter name.
pub open spec fn c_atom(names: Seq<Seq<char>>, s: Seq<char>, c: Code) -> Result<Code, CompileError>
    decreases s.len(), 0int,
{
    if s.len() == 0 {
        Err(CompileError::EmptySubexpression)
    } else if s[0] == '(' {
        if s.len() < 2 || s[s.len() - 1] != ')' {
            Err(CompileError::UnmatchedParenthesis)
        } else if !balanced(s.subrange(1, s.len() - 1)) {
            Err(CompileError::UnbalancedParentheses)
        } else {
            c_add(names, s.subrange(1, s.len() - 1), c)
        }
    } else if !(forall|i: int| 0 <= i < s.len() ==> atom_char(#[trigger] s[i])) {
        Err(CompileError::InvalidCharacters)
    } else if is_non_finite_word(s) {
        Err(CompileError::NonFinite)
    } else if is_decimal(s) {
        let (k, pool) = intern(c.1, s);
        Ok((c.0.push(OpCode::LoadConst(k as usize)), pool))
    } else {
        match position_of(names, s) {
            Some(i) => Ok(emit(c, OpCode::LoadParam(i as usize))),
            None => Err(CompileError::UnknownIdentifier),
        }
    }
}

/// `s` without its white space.
pub open spec fn strip_spaces(s: Seq<char>) -> Seq<char>
    decreases s.len(),
{
    if s.len() == 0 {
        s
    } else if is_space(s.last()) {
        strip_spaces(s.drop_last())
    } else {
        strip_spaces(s.drop_last()).push(s.last())
    }
}

// ---------------------------------------------------------------- stack discipline

pub open spec fn step_height(h: int, op: OpCode, arity: int, nconst: int) -> Option<int> {
    match op {
        OpCode::LoadParam(i) => if i < arity && h < STACK_DEPTH {
            Some(h + 1)
        } else {
            None
        },
        OpCode::LoadConst(k) => if k < nconst && h < STACK_DEPTH {
            Some(h + 1)
        } else {
            None
        },
        _ => if h >= 2 {
            Some(h - 1)
        } else {
            None
        },
    }
}

/// Stack height after running `ops`, or `None` where an instruction cannot run.
pub open spec fn height(ops: Seq<OpCode>, arity: int, nconst: int) -> Option<int>
    decreases ops.len(),
{
    if ops.len() == 0 {
        Some(0)
    } else {
        match height(ops.drop_last(), arity, nconst) {
            Some(h) => step_height(h, ops.last(), arity, nconst),
            None => None,
        }
    }
}

/// `ops` runs within the stack and the operand indices and leaves exactly one value.
pub open spec fn runs_clean(ops: Seq<OpCode>, arity: int, nconst: int) -> bool {
    height(ops, arity, nconst) == Some(1int)
}

/// What `compile` returns for an expression over the parameters `names`.
pub open spec fn compile_spec(names: Seq<Seq<char>>, e: Seq<char>) -> Result<Code, CompileError> {
    if e.len() == 0 {
        Err(CompileError::Empty)
    } else if strip_spaces(e).len() == 0 {
        Err(CompileError::Blank)
    } else {
        match c_add(names, strip_spaces(e), (Seq::empty(), Seq::empty())) {
            Err(err) => Err(err),
            Ok(c) => if runs_clean(c.0, names.len() as int, c.1.len() as int) {
                Ok(c)
            } else {
                Err(CompileError::TooDeep)
            },
        }
    }
}


// ---------------------------------------------------------------- compiler

/// The views of a list of character vectors.
pub open spec fn seqs(v: Seq<Vec<char>>) -> Seq<Seq<char>> {
    Seq::new(v.len(), |i: int| v[i]@)
}

/// The views of a list of strings.
pub open spec fn strs(v: Seq<String>) -> Seq<Seq<char>> {
    Seq::new(v.len(), |i: int| v[i]@)
}

fn find_op_exec(s: &Vec<char>, level: u8) -> (r: Option<usize>)
    ensures
        r matches Some(k) ==> k < s@.len() && find_op(s@, level) == Some(k as int),
        r is None ==> find_op(s@, level) is None,
{
    let n = s.len();
    let mut i: usize = n;
    let mut depth: i128 = 0;
    while i > 0
        invariant
            n == s@.len(),
            i <= s@.len(),
            -(s@.len() - i) <= depth <= s@.len() - i,
            find_op(s@, level) == scan_op(s@, level, i as int, depth as int),
        decreases i,
    {
        let c = s[i - 1];
        if c == ')' {
            depth = depth + 1;
        } else if c == '(' {
            depth = depth - 1;
        } else if depth == 0 && ((level == 0 && (c == '+' || c == '-')) || (level == 1 && (c == '*'
            || c == '/')) || (level != 0 && level != 1 && c == '^')) {
            return Some(i - 1);
        }
        i = i - 1;
    }
    None
}

fn balanced_exec(s: &Vec<char>) -> (r: bool)
    ensures
        r == balanced(s@),
{
    let mut i: usize = 0;
    let mut depth: i128 = 0;
    while i < s.len()
        invariant
            i <= s@.len(),
            0 <= depth <= i,
            balanced(s@) == balanced_from(s@, i as int, depth as int),
        decreases s@.len() - i,
    {
        if s[i] == '(' {
            depth = depth + 1;
        } else if s[i] == ')' {
            depth = depth - 1;
            if depth < 0 {
                return false;
            }
        }
        i = i + 1;
    }
    depth == 0
}

fn all_atom_chars(s: &Vec<char>) -> (r: bool)
    ensures
        r == (forall|i: int| 0 <= i < s@.len() ==> atom_char(#[trigger] s@[i])),
{
    let mut i: usize = 0;
    while i < s.len()
        invariant
            i <= s@.len(),
            forall|j: int| 0 <= j < i ==> atom_char(#[trigger] s@[j]),
        decreases s@.len() - i,
    {
        let c = s[i];
        if !(is_alphanumeric(c) || c == '_' || c == '.') {
            assert(!atom_char(s@[i as int]));
            return false;
        }
        i = i + 1;
    }
    true
}

fn digits_exec(s: &Vec<char>, a: usize, b: usize) -> (r: bool)
    requires
        a <= b <= s@.len(),
    ensures
        r == all_digits(s@.subrange(a as int, b as int)),
{
    let mut i: usize = a;
    while i < b
        invariant
            a <= i <= b <= s@.len(),
            forall|j: int| a <= j < i ==> is_digit(#[trigger] s@[j]),
        decreases b - i,
    {
        if !('0' <= s[i] && s[i] <= '9') {
            assert(!is_digit(s@.subrange(a as int, b as int)[i - a]));
            return false;
        }
        i = i + 1;
    }
    assert forall|j: int| 0 <= j < b - a implies is_digit(
        #[trigger] s@.subrange(a as int, b as int)[j],
    ) by {
        assert(s@.subrange(a as int, b as int)[j] == s@[a + j]);
    }
    true
}

/// First index in `s[..b]` of `'.'` (when `dot`) or of an exponent mark, or `b`.
fn first_mark(s: &Vec<char>, b: usize, dot: bool) -> (r: usize)
    requires
        b <= s@.len(),
    ensures
        dot ==> r == first_index(s@.subrange(0, b as int), |c: char| c == '.'),
        !dot ==> r == first_index(s@.subrange(0, b as int), |c: char| is_exp_mark(c)),
        r <= b,
{
    let ghost t = s@.subrange(0, b as int);
    let ghost f: spec_fn(char) -> bool = if dot {
        |c: char| c == '.'
    } else {
        |c: char| is_exp_mark(c)
    };
    let mut i: usize = 0;
    while i < b
        invariant
            i <= b <= s@.len(),
            t == s@.subrange(0, b as int),
            f == (if dot {
                |c: char| c == '.'
            } else {
                |c: char| is_exp_mark(c)
            }),
            forall|j: int| 0 <= j < i ==> !f(#[trigger] t[j]),
        decreases b - i,
    {
        let c = s[i];
        if (dot && c == '.') || (!dot && (c == 'e' || c == 'E')) {
            assert(f(t[i as int]));
            let ghost k = choose|k: int|
                0 <= k < t.len() && f(t[k]) && forall|j: int| 0 <= j < k ==> !f(#[trigger] t[j]);
            assert(exists|k: int| 0 <= k < t.len() && f(t[k]));
            assert(k == i) by {
                if k < i {
                    assert(!f(t[k]));
                } else if k > i {
                    assert(!f(t[i as int]));
                }
            }
            return i;
        }
        i = i + 1;
    }
    assert(!(exists|k: int| 0 <= k < t.len() && f(t[k])));
    b
}

fn mantissa_exec(s: &Vec<char>, b: usize) -> (r: bool)
    requires
        b <= s@.len(),
    ensures
        r == is_mantissa(s@.subrange(0, b as int)),
{
    let ghost m = s@.subrange(0, b as int);
    let d = first_mark(s, b, true);
    if d == b {
        b > 0 && digits_exec(s, 0, b)
    } else {
        assert(m.subrange(0, d as int) == s@.subrange(0, d as int));
        assert(m.subrange(d + 1, b as int) == s@.subrange(d + 1, b as int));
        b > 1 && digits_exec(s, 0, d) && digits_exec(s, d + 1, b)
    }
}

fn decimal_exec(s: &Vec<char>) -> (r: bool)
    ensures
        r == is_decimal(s@),
{
    let n = s.len();
    assert(s@.subrange(0, n as int) == s@);
    let k = first_mark(s, n, false);
    let m = mantissa_exec(s, k);
    m && (k == n || (k + 1 < n && digits_exec(s, k + 1, n)))
}

fn folds_exec(s: &Vec<char>, w: &[char]) -> (r: bool)
    requires
        forall|i: int| 0 <= i < w@.len() ==> 'a' <= #[trigger] w@[i] <= 'z',
    ensures
        r == folds_to(s@, w@),
{
    if s.len() != w.len() {
        return false;
    }
    let mut i: usize = 0;
    while i < s.len()
        invariant
            i <= s@.len() == w@.len(),
            forall|j: int| 0 <= j < i ==> fold_eq(#[trigger] s@[j], w@[j]),
        decreases s@.len() - i,
    {
        let c = s[i];
        let ok = if 'A' <= c && c <= 'Z' {
            (c as u32) + 32 == (w[i] as u32)
        } else {
            c == w[i]
        };
        if !ok {
            return false;
        }
        i = i + 1;
    }
    true
}

fn non_finite_exec(s: &Vec<char>) -> (r: bool)
    ensures
        r == is_non_finite_word(s@),
{
    let inf = ['i', 'n', 'f'];
    let infinity = ['i', 'n', 'f', 'i', 'n', 'i', 't', 'y'];
    let nan = ['n', 'a', 'n'];
    assert(inf@ == seq!['i', 'n', 'f']);
    assert(infinity@ == seq!['i', 'n', 'f', 'i', 'n', 'i', 't', 'y']);
    assert(nan@ == seq!['n', 'a', 'n']);
    folds_exec(s, vstd::array::array_as_slice(&inf)) || folds_exec(
        s,
        vstd::array::array_as_slice(&infinity),
    ) || folds_exec(s, vstd::array::array_as_slice(&nan))
}

pub fn position_exec(names: &Vec<Vec<char>>, s: &Vec<char>) -> (r: Option<usize>)
    ensures
        r matches Some(i) ==> i < names@.len() && position_of(seqs(names@), s@) == Some(i as int),
        r is None ==> position_of(seqs(names@), s@) is None,
{
    let ghost ns = seqs(names@);
    let mut i: usize = 0;
    while i < names.len()
        invariant
            i <= names@.len(),
            ns == seqs(names@),
            ns.len() == names@.len(),
            forall|j: int| 0 <= j < i ==> #[trigger] ns[j] != s@,
        decreases names@.len() - i,
    {
        if same(names[i].as_slice(), s.as_slice()) {
            assert(ns[i as int] == s@);
            let ghost k = choose|k: int|
                0 <= k < ns.len() && ns[k] == s@ && forall|j: int|
                    0 <= j < k ==> #[trigger] ns[j] != s@;
            assert(exists|k: int| 0 <= k < ns.len() && ns[k] == s@);
            assert(k == i) by {
                if k < i {
                    assert(ns[k] != s@);
                } else if k > i {
                    assert(ns[i as int] != s@);
                }
            }
            return Some(i);
        }
        i = i + 1;
    }
    None
}


fn strip_zeros_exec(s: &Vec<char>, a: usize, b: usize) -> (r: usize)
    requires
        a <= b <= s@.len(),
    ensures
        a <= r <= b,
        s@.subrange(r as int, b as int) == strip_leading_zeros(s@.subrange(a as int, b as int)),
{
    let mut i: usize = a;
    while i < b && s[i] == '0'
        invariant
            a <= i <= b <= s@.len(),
            strip_leading_zeros(s@.subrange(i as int, b as int)) == strip_leading_zeros(
                s@.subrange(a as int, b as int),
            ),
        decreases b - i,
    {
        assert(s@.subrange(i as int, b as int).drop_first() == s@.subrange(i + 1, b as int));
        i = i + 1;
    }
    if i < b {
        assert(s@.subrange(i as int, b as int)[0] == s@[i as int]);
    }
    i
}

fn trailing_exec(g: &Vec<char>) -> (t: usize)
    ensures
        t == trailing_zeros(g@),
        t <= g@.len(),
{
    let n = g.len();
    let mut j: usize = n;
    let mut t: usize = 0;
    assert(g@.subrange(0, n as int) == g@);
    while j > 0 && g[j - 1] == '0'
        invariant
            j <= g@.len(),
            n == g@.len(),
            t + j == n,
            trailing_zeros(g@) == t + trailing_zeros(g@.subrange(0, j as int)),
        decreases j,
    {
        assert(g@.subrange(0, j as int).drop_last() == g@.subrange(0, j - 1));
        j = j - 1;
        t = t + 1;
    }
    assert(j > 0 ==> g@.subrange(0, j as int).last() == g@[j - 1]);
    t
}

/// The integer that the digits `s[a..b]` spell, for at most `MAX_EXPONENT_DIGITS` digits.
fn digits_exec_value(s: &Vec<char>, a: usize, b: usize) -> (v: i128)
    requires
        a <= b <= s@.len(),
        b - a <= MAX_EXPONENT_DIGITS,
        all_digits(s@.subrange(a as int, b as int)),
    ensures
        v == digits_value(s@.subrange(a as int, b as int)),
        0 <= v < 1_000_000_000_000_000_000_000_000_000_000int,
{
    let mut v: i128 = 0;
    let mut p: i128 = 1;
    let mut i: usize = a;
    proof {
        vstd::arithmetic::power::lemma_pow0(10);
    }
    while i < b
        invariant
            a <= i <= b <= s@.len(),
            b - a <= MAX_EXPONENT_DIGITS,
            all_digits(s@.subrange(a as int, b as int)),
            0 <= v < p,
            v < 1_000_000_000_000_000_000_000_000_000_000int,
            p == vstd::arithmetic::power::pow(10, (i - a) as nat),
            v == digits_value(s@.subrange(a as int, i as int)),
        decreases b - i,
    {
        assert(s@.subrange(a as int, i + 1).drop_last() == s@.subrange(a as int, i as int));
        assert(is_digit(s@[i as int])) by {
            assert(s@[i as int] == s@.subrange(a as int, b as int)[i - a]);
        }
        let dg = (s[i] as u32 - '0' as u32) as i128;
        proof {
            vstd::arithmetic::power::lemma_pow_positive(10, (i - a) as nat);
            vstd::arithmetic::power::lemma_pow1(10);
            vstd::arithmetic::power::lemma_pow_adds(10, (i - a) as nat, 1);
            assert(p <= vstd::arithmetic::power::pow(10, 29)) by {
                vstd::arithmetic::power::lemma_pow_increases(10, (i - a) as nat, 29);
            }
            assert(vstd::arithmetic::power::pow(10, 29) == 100_000_000_000_000_000_000_000_000_000int) by {
                reveal_with_fuel(vstd::arithmetic::power::pow, 30);
            }
            assert(10 * v + dg < 10 * p) by (nonlinear_arith)
                requires
                    0 <= v < p,
                    0 <= dg <= 9,
            ;
        }
        v = 10 * v + dg;
        p = 10 * p;
        i = i + 1;
    }
    v
}

/// The normal form of a decimal literal.
#[verifier::spinoff_prover]
#[verifier::rlimit(100)]
fn norm_exec(s: &Vec<char>) -> (r: Option<(Vec<char>, i128)>)
    requires
        is_decimal(s@),
    ensures
        match r {
            Some((g, x)) => norm(s@) == Some((g@, x as int)),
            None => norm(s@) is None,
        },
{
    let n = s.len();
    assert(s@.subrange(0, n as int) == s@);
    let k = first_mark(s, n, false);
    let d = first_mark(s, k, true);
    let ghost m = s@.subrange(0, k as int);
    assert(m.subrange(0, d as int) == s@.subrange(0, d as int));
    let ea: usize = if k < n { k + 1 } else { n };
    let e0 = strip_zeros_exec(s, ea, n);
    if k < n {
        assert(all_digits(s@.subrange(k + 1, n as int)));
    } else {
        assert(s@.subrange(ea as int, n as int) =~= Seq::<char>::empty());
    }
    if n - e0 > MAX_EXPONENT_DIGITS {
        return None;
    }
    assert(all_digits(s@.subrange(e0 as int, n as int))) by {
        if k < n {
            assert forall|t: int| 0 <= t < n - e0 implies is_digit(
                #[trigger] s@.subrange(e0 as int, n as int)[t],
            ) by {
                assert(s@.subrange(e0 as int, n as int)[t] == s@.subrange(k + 1, n as int)[t + e0 - (
                k + 1)]);
            }
        }
    }
    let v = digits_exec_value(s, e0, n);
    let ghost fp = if d < k {
        m.subrange(d + 1, k as int)
    } else {
        Seq::empty()
    };
    let mut g = copy_range(s.as_slice(), 0, d);
    let fl: usize = if d < k { k - (d + 1) } else { 0 };
    if d < k {
        append(&mut g, copy_range(s.as_slice(), d + 1, k).as_slice());
        assert(m.subrange(d + 1, k as int) == s@.subrange(d + 1, k as int));
    }
    assert(g@ =~= m.subrange(0, d as int) + fp);
    assert(fp.len() == fl);
    let g0 = strip_zeros_exec(&g, 0, g.len());
    assert(g@.subrange(0, g@.len() as int) == g@);
    if g0 == g.len() {
        return Some((Vec::new(), 0));
    }
    let gs = copy_range(g.as_slice(), g0, g.len());
    let t = trailing_exec(&gs);
    let sig = copy_range(gs.as_slice(), 0, gs.len() - t);
    Some((sig, v - fl as i128 + t as i128))
}

fn same_literal_exec(a: &Vec<char>, b: &Vec<char>) -> (r: bool)
    requires
        is_decimal(a@),
        is_decimal(b@),
    ensures
        r == same_literal(a@, b@),
{
    match (norm_exec(a), norm_exec(b)) {
        (Some((ga, xa)), Some((gb, xb))) => {
            let r = xa == xb && same(ga.as_slice(), gb.as_slice());
            assert(r ==> (ga@, xa as int) == (gb@, xb as int));
            r
        },
        (None, None) => same(a.as_slice(), b.as_slice()),
        _ => false,
    }
}

#[verifier::spinoff_prover]
#[verifier::rlimit(40)]
fn slot_exec(pool: &Vec<Vec<char>>, s: &Vec<char>) -> (r: Option<usize>)
    requires
        is_decimal(s@),
        forall|i: int| 0 <= i < pool@.len() ==> is_decimal(#[trigger] pool@[i]@),
    ensures
        r matches Some(i) ==> i < pool@.len() && slot_of(seqs(pool@), s@) == Some(i as int),
        r is None ==> slot_of(seqs(pool@), s@) is None,
{
    let ghost ps = seqs(pool@);
    let mut i: usize = 0;
    while i < pool.len()
        invariant
            i <= pool@.len(),
            ps == seqs(pool@),
            ps.len() == pool@.len(),
            forall|j: int| 0 <= j < pool@.len() ==> is_decimal(#[trigger] pool@[j]@),
            is_decimal(s@),
            forall|j: int| 0 <= j < i ==> !same_literal(#[trigger] ps[j], s@),
        decreases pool@.len() - i,
    {
        if same_literal_exec(&pool[i], s) {
            assert(same_literal(ps[i as int], s@));
            let ghost k = choose|k: int|
                0 <= k < ps.len() && same_literal(ps[k], s@) && forall|j: int|
                    0 <= j < k ==> !same_literal(#[trigger] ps[j], s@);
            assert(exists|k: int| 0 <= k < ps.len() && same_literal(ps[k], s@));
            assert(k == i) by {
                if k < i {
                    assert(!same_literal(ps[k], s@));
                } else if k > i {
                    assert(!same_literal(ps[i as int], s@));
                }
            }
            return Some(i);
        }
        i = i + 1;
    }
    None
}

fn intern_exec(pool: &mut Vec<Vec<char>>, lit: &Vec<char>) -> (k: usize)
    requires
        is_decimal(lit@),
        forall|i: int| 0 <= i < old(pool)@.len() ==> is_decimal(#[trigger] old(pool)@[i]@),
    ensures
        intern(seqs(old(pool)@), lit@) == (k as int, seqs(final(pool)@)),
        forall|i: int| 0 <= i < final(pool)@.len() ==> is_decimal(#[trigger] final(pool)@[i]@),
{
    match slot_exec(pool, lit) {
        Some(i) => i,
        None => {
            let k = pool.len();
            let copy = copy_range(lit.as_slice(), 0, lit.len());
            assert(lit@.subrange(0, lit@.len() as int) == lit@);
            pool.push(copy);
            assert(seqs(pool@) =~= seqs(old(pool)@).push(lit@));
            k
        },
    }
}

/// The outcome of a compile step, over the state it started from.
pub open spec fn step_ok(
    r: Result<(), CompileError>,
    spec_r: Result<Code, CompileError>,
    ops: Seq<OpCode>,
    pool: Seq<Vec<char>>,
) -> bool {
    match r {
        Ok(_) => spec_r == Ok::<Code, CompileError>((ops, seqs(pool))),
        Err(e) => spec_r == Err::<Code, CompileError>(e),
    }
}

fn comp_add(
    names: &Vec<Vec<char>>,
    s: &Vec<char>,
    ops: &mut Vec<OpCode>,
    pool: &mut Vec<Vec<char>>,
) -> (r: Result<(), CompileError>)
    requires
        forall|i: int| 0 <= i < old(pool)@.len() ==> is_decimal(#[trigger] old(pool)@[i]@),
    ensures
        step_ok(r, c_add(seqs(names@), s@, (old(ops)@, seqs(old(pool)@))), final(ops)@, final(pool)@),
        forall|i: int| 0 <= i < final(pool)@.len() ==> is_decimal(#[trigger] final(pool)@[i]@),
    decreases s@.len(), 3int,
{
    let n = s.len();
    match find_op_exec(s, 0) {
        Some(pos) => {
            let left = copy_range(s.as_slice(), 0, pos);
            let right = copy_range(s.as_slice(), pos + 1, n);
            let r1 = comp_add(names, &left, ops, pool);
            if let Err(e) = r1 {
                return Err(e);
            }
            let r2 = comp_mul(names, &right, ops, pool);
            if let Err(e) = r2 {
                return Err(e);
            }
            ops.push(
                if s[pos] == '+' {
                    OpCode::Add
                } else {
                    OpCode::Sub
                },
            );
            Ok(())
        },
        None => comp_mul(names, s, ops, pool),
    }
}

fn comp_mul(
    names: &Vec<Vec<char>>,
    s: &Vec<char>,
    ops: &mut Vec<OpCode>,
    pool: &mut Vec<Vec<char>>,
) -> (r: Result<(), CompileError>)
    requires
        forall|i: int| 0 <= i < old(pool)@.len() ==> is_decimal(#[trigger] old(pool)@[i]@),
    ensures
        step_ok(r, c_mul(seqs(names@), s@, (old(ops)@, seqs(old(pool)@))), final(ops)@, final(pool)@),
        forall|i: int| 0 <= i < final(pool)@.len() ==> is_decimal(#[trigger] final(pool)@[i]@),
    decreases s@.len(), 2int,
{
    let n = s.len();
    match find_op_exec(s, 1) {
        Some(pos) => {
            let left = copy_range(s.as_slice(), 0, pos);
            let right = copy_range(s.as_slice(), pos + 1, n);
            let r1 = comp_mul(names, &left, ops, pool);
            if let Err(e) = r1 {
                return Err(e);
            }
            let r2 = comp_pow(names, &right, ops, pool);
            if let Err(e) = r2 {
                return Err(e);
            }
            ops.push(
                if s[pos] == '*' {
                    OpCode::Mul
                } else {
                    OpCode::Div
                },
            );
            Ok(())
        },
        None => comp_pow(names, s, ops, pool),
    }
}

#[verifier::rlimit(30)]
fn comp_pow(
    names: &Vec<Vec<char>>,
    s: &Vec<char>,
    ops: &mut Vec<OpCode>,
    pool: &mut Vec<Vec<char>>,
) -> (r: Result<(), CompileError>)
    requires
        forall|i: int| 0 <= i < old(pool)@.len() ==> is_decimal(#[trigger] old(pool)@[i]@),
    ensures
        step_ok(r, c_pow(seqs(names@), s@, (old(ops)@, seqs(old(pool)@))), final(ops)@, final(pool)@),
        forall|i: int| 0 <= i < final(pool)@.len() ==> is_decimal(#[trigger] final(pool)@[i]@),
    decreases s@.len(), 1int,
{
    let n = s.len();
    match find_op_exec(s, 2) {
        Some(pos) => {
            let left = copy_range(s.as_slice(), 0, pos);
            let right = copy_range(s.as_slice(), pos + 1, n);
            let r1 = comp_atom(names, &left, ops, pool);
            if let Err(e) = r1 {
                return Err(e);
            }
            let r2 = comp_atom(names, &right, ops, pool);
            if let Err(e) = r2 {
                return Err(e);
            }
            ops.push(OpCode::Pow);
            Ok(())
        },
        None => comp_atom(names, s, ops, pool),
    }
}

fn comp_atom(
    names: &Vec<Vec<char>>,
    s: &Vec<char>,
    ops: &mut Vec<OpCode>,
    pool: &mut Vec<Vec<char>>,
) -> (r: Result<(), CompileError>)
    requires
        forall|i: int| 0 <= i < old(pool)@.len() ==> is_decimal(#[trigger] old(pool)@[i]@),
    ensures
        step_ok(r, c_atom(seqs(names@), s@, (old(ops)@, seqs(old(pool)@))), final(ops)@, final(pool)@),
        forall|i: int| 0 <= i < final(pool)@.len() ==> is_decimal(#[trigger] final(pool)@[i]@),
    decreases s@.len(), 0int,
{
    let n = s.len();
    if n == 0 {
        return Err(CompileError::EmptySubexpression);
    }
    if s[0] == '(' {
        if n < 2 || s[n - 1] != ')' {
            return Err(CompileError::UnmatchedParenthesis);
        }
        let inner = copy_range(s.as_slice(), 1, n - 1);
        if !balanced_exec(&inner) {
            return Err(CompileError::UnbalancedParentheses);
        }
        return comp_add(names, &inner, ops, pool);
    }
    if !all_atom_chars(s) {
        return Err(CompileError::InvalidCharacters);
    }
    if non_finite_exec(s) {
        return Err(CompileError::NonFinite);
    }
    if decimal_exec(s) {
        let k = intern_exec(pool, s);
        ops.push(OpCode::LoadConst(k));
        return Ok(());
    }
    match position_exec(names, s) {
        Some(i) => {
            ops.push(OpCode::LoadParam(i));
            Ok(())
        },
        None => Err(CompileError::UnknownIdentifier),
    }
}

fn strip_exec(e: &Vec<char>) -> (r: Vec<char>)
    ensures
        r@ == strip_spaces(e@),
{
    let mut r: Vec<char> = Vec::new();
    let mut i: usize = 0;
    while i < e.len()
        invariant
            i <= e@.len(),
            r@ == strip_spaces(e@.subrange(0, i as int)),
        decreases e@.len() - i,
    {
        assert(e@.subrange(0, i + 1).drop_last() == e@.subrange(0, i as int));
        if !is_space_char(e[i]) {
            r.push(e[i]);
        }
        i = i + 1;
    }
    assert(e@.subrange(0, e@.len() as int) == e@);
    r
}

fn height_exec(ops: &Vec<OpCode>, arity: usize, nconst: usize) -> (r: bool)
    ensures
        r == runs_clean(ops@, arity as int, nconst as int),
{
    let mut h: usize = 0;
    let mut i: usize = 0;
    while i < ops.len()
        invariant
            i <= ops@.len(),
            h <= STACK_DEPTH,
            height(ops@.subrange(0, i as int), arity as int, nconst as int) == Some(h as int),
        decreases ops@.len() - i,
    {
        assert(ops@.subrange(0, i + 1).drop_last() == ops@.subrange(0, i as int));
        let ok = match ops[i] {
            OpCode::LoadParam(k) => k < arity && h < STACK_DEPTH,
            OpCode::LoadConst(k) => k < nconst && h < STACK_DEPTH,
            _ => h >= 2,
        };
        if !ok {
            proof {
                lemma_height_prefix(ops@, arity as int, nconst as int, i as int + 1);
            }
            return false;
        }
        h = match ops[i] {
            OpCode::LoadParam(_) => h + 1,
            OpCode::LoadConst(_) => h + 1,
            _ => h - 1,
        };
        i = i + 1;
    }
    assert(ops@.subrange(0, ops@.len() as int) == ops@);
    h == 1
}

/// A program that runs has prefixes that run.
proof fn lemma_height_prefix(ops: Seq<OpCode>, arity: int, nconst: int, i: int)
    requires
        0 <= i <= ops.len(),
        height(ops.subrange(0, i), arity, nconst) is None,
    ensures
        height(ops, arity, nconst) is None,
    decreases ops.len() - i,
{
    if i < ops.len() {
        assert(ops.subrange(0, i + 1).drop_last() == ops.subrange(0, i));
        lemma_height_prefix(ops, arity, nconst, i + 1);
    } else {
        assert(ops.subrange(0, i) == ops);
    }
}

/// The characters of each string, in order.
pub fn char_vecs(v: &Vec<String>) -> (names: Vec<Vec<char>>)
    ensures
        seqs(names@) == strs(v@),
        names@.len() == v@.len(),
{
    let ghost spec_names = strs(v@);
    let mut names: Vec<Vec<char>> = Vec::new();
    let mut i: usize = 0;
    while i < v.len()
        invariant
            i <= v@.len(),
            names@.len() == i,
            seqs(names@) == spec_names.subrange(0, i as int),
            spec_names == strs(v@),
        decreases v@.len() - i,
    {
        let c = chars_of(v[i].as_str());
        assert(c@ == spec_names[i as int]);
        let ghost before = names@;
        names.push(c);
        assert(names@ == before.push(c));
        assert forall|j: int| 0 <= j < i + 1 implies #[trigger] seqs(names@)[j]
            == spec_names.subrange(0, i + 1)[j] by {
            if j < i {
                assert(seqs(before)[j] == spec_names.subrange(0, i as int)[j]);
            }
        }
        assert(seqs(names@) =~= spec_names.subrange(0, i + 1));
        i = i + 1;
    }
    assert(spec_names.subrange(0, i as int) == spec_names);
    names
}

// ---------------------------------------------------------------- compiled form

/// Numbers the stack machine computes with. The library does not fix them: the
/// caller's type gives the arithmetic, named by `op_spec` and `zero_spec`.
pub trait Scalar: Sized + Copy {
    /// The number a binary operation (`Add`, `Sub`, `Mul`, `Div` or `Pow`) gives.
    spec fn op_spec(op: OpCode, a: Self, b: Self) -> Self;

    /// Whether a number counts as zero for division.
    spec fn zero_spec(a: Self) -> bool;

    fn plus(self, o: Self) -> (r: Self)
        ensures
            r == Self::op_spec(OpCode::Add, self, o),
    ;

    fn minus(self, o: Self) -> (r: Self)
        ensures
            r == Self::op_spec(OpCode::Sub, self, o),
    ;

    fn times(self, o: Self) -> (r: Self)
        ensures
            r == Self::op_spec(OpCode::Mul, self, o),
    ;

    fn divide(self, o: Self) -> (r: Self)
        requires
            !Self::zero_spec(o),
        ensures
            r == Self::op_spec(OpCode::Div, self, o),
    ;

    fn power(self, o: Self) -> (r: Self)
        ensures
            r == Self::op_spec(OpCode::Pow, self, o),
    ;

    fn is_zero(self) -> (r: bool)
        ensures
            r == Self::zero_spec(self),
    ;
}

/// The binary operations of `V`: division by a zero divisor fails, every other
/// operation gives `op_spec`.
pub open spec fn bin_of<V: Scalar>() -> spec_fn(OpCode, V, V) -> Option<V> {
    |op: OpCode, a: V, b: V|
        if op == OpCode::Div && V::zero_spec(b) {
            None
        } else {
            Some(V::op_spec(op, a, b))
        }
}

/// Slot `k` of the pool has the value `constants[k]`.
pub open spec fn slots<V>(constants: Seq<V>) -> spec_fn(int) -> V {
    |k: int| constants[k]
}

/// A compiled arithmetic expression: bytecode, a pool with one literal (as its decimal
/// text) per distinct number, and the number of parameters it reads.
#[derive(Clone, Debug)]
pub struct CompiledExpression {
    instructions: Vec<OpCode>,
    constants: Vec<Vec<char>>,
    param_count: usize,
}

impl CompiledExpression {
    pub closed spec fn ops(&self) -> Seq<OpCode> {
        self.instructions@
    }

    pub closed spec fn pool(&self) -> Seq<Seq<char>> {
        seqs(self.constants@)
    }

    pub closed spec fn arity(&self) -> nat {
        self.param_count as nat
    }

    /// The bytecode runs within the stack and leaves one value.
    pub open spec fn wf(&self) -> bool {
        runs_clean(self.ops(), self.arity() as int, self.pool().len() as int)
    }

    /// Compiles `expr` over the parameters `param_names`, in that order.
    pub fn new(expr: &str, param_names: &Vec<String>) -> (r: Result<
        CompiledExpression,
        CompileError,
    >)
        ensures
            r matches Ok(e) ==> compile_spec(strs(param_names@), expr@) == Ok::<
                Code,
                CompileError,
            >((e.ops(), e.pool())) && e.arity() == param_names@.len() && e.wf(),
            r matches Err(err) ==> compile_spec(strs(param_names@), expr@)
                == Err::<Code, CompileError>(err),
    {
        let names = char_vecs(param_names);
        let e = chars_of(expr);
        if e.len() == 0 {
            return Err(CompileError::Empty);
        }
        let cleaned = strip_exec(&e);
        if cleaned.len() == 0 {
            return Err(CompileError::Blank);
        }
        let mut ops: Vec<OpCode> = Vec::new();
        let mut pool: Vec<Vec<char>> = Vec::new();
        assert(seqs(pool@) =~= Seq::<Seq<char>>::empty());
        let r = comp_add(&names, &cleaned, &mut ops, &mut pool);
        match r {
            Err(err) => Err(err),
            Ok(_) => {
                if height_exec(&ops, names.len(), pool.len()) {
                    Ok(CompiledExpression { instructions: ops, constants: pool, param_count: names.len() })
                } else {
                    Err(CompileError::TooDeep)
                }
            },
        }
    }

    /// Number of parameters the expression reads.
    pub fn param_count(&self) -> (r: usize)
        ensures
            r == self.arity(),
    {
        self.param_count
    }

    /// Number of distinct literals.
    pub fn constant_count(&self) -> (r: usize)
        ensures
            r == self.pool().len(),
    {
        self.constants.len()
    }

    /// Number of instructions.
    pub fn instruction_count(&self) -> (r: usize)
        ensures
            r == self.ops().len(),
    {
        self.instructions.len()
    }

    /// The decimal text of literal `k`.
    pub fn constant_text(&self, k: usize) -> (r: String)
        requires
            k < self.pool().len(),
        ensures
            r@ == self.pool()[k as int],
    {
        crate::text::string_of(self.constants[k].as_slice())
    }

    /// Runs the bytecode on `params`, with `constants[k]` the value of literal `k`:
    /// the stack machine's result, or `DivByZero` where a division meets a zero
    /// divisor.
    pub fn evaluate<V: Scalar>(&self, params: &[V], constants: &[V]) -> (r: Result<V, EvalError>)
        ensures
            params@.len() != self.arity() ==> r == Err::<V, EvalError>(EvalError::ParamCountMismatch),
            params@.len() == self.arity() && (constants@.len() != self.pool().len() || !runs_clean(
                self.ops(),
                self.arity() as int,
                self.pool().len() as int,
            )) ==> r == Err::<V, EvalError>(EvalError::Malformed),
            params@.len() == self.arity() && constants@.len() == self.pool().len() && runs_clean(
                self.ops(),
                self.arity() as int,
                self.pool().len() as int,
            ) ==> r == match run(
                self.ops(),
                Seq::empty(),
                params@,
                self.pool(),
                bin_of::<V>(),
                slots(constants@),
            ) {
                Some(st) => Ok::<V, EvalError>(st[0]),
                None => Err::<V, EvalError>(EvalError::DivByZero),
            },
    {
        if params.len() != self.param_count {
            return Err(EvalError::ParamCountMismatch);
        }
        if constants.len() != self.constants.len() {
            return Err(EvalError::Malformed);
        }
        if !height_exec(&self.instructions, params.len(), constants.len()) {
            return Err(EvalError::Malformed);
        }
        let ghost ops = self.instructions@;
        let ghost arity = params@.len() as int;
        let ghost nconst = constants@.len() as int;
        let ghost pool = self.pool();
        let ghost bin = bin_of::<V>();
        let ghost cval = slots(constants@);
        proof {
            assert(ops.len() > 0);
            assert(ops.subrange(0, 1).drop_last() =~= Seq::<OpCode>::empty());
            assert(ops.subrange(0, 1).last() == ops[0]);
            assert(height(Seq::<OpCode>::empty(), arity, nconst) == Some(0int));
            if height(ops.subrange(0, 1), arity, nconst) is None {
                lemma_height_prefix(ops, arity, nconst, 1);
            }
        }
        let seed = match self.instructions[0] {
            OpCode::LoadParam(k) => params[k],
            OpCode::LoadConst(k) => constants[k],
            _ => {
                return Err(EvalError::Malformed);
            },
        };
        let mut stack: [V; STACK_DEPTH] = [seed; STACK_DEPTH];
        let mut sp: usize = 0;
        let mut i: usize = 0;
        assert(ops.subrange(0, 0) =~= Seq::<OpCode>::empty());
        assert(stack@.subrange(0, 0) =~= Seq::<V>::empty());
        while i < self.instructions.len()
            invariant
                i <= ops.len(),
                ops == self.instructions@,
                arity == params@.len(),
                params@.len() == self.arity(),
                nconst == constants@.len(),
                nconst == pool.len(),
                pool == self.pool(),
                bin == bin_of::<V>(),
                cval == slots(constants@),
                runs_clean(ops, arity, nconst),
                height(ops.subrange(0, i as int), arity, nconst) == Some(sp as int),
                sp <= STACK_DEPTH,
                run(ops.subrange(0, i as int), Seq::empty(), params@, pool, bin, cval) == Some(
                    stack@.subrange(0, sp as int),
                ),
            decreases ops.len() - i,
        {
            let ghost cur = stack@.subrange(0, sp as int);
            let ghost op = ops[i as int];
            proof {
                assert(ops.subrange(0, i + 1).drop_last() == ops.subrange(0, i as int));
                if height(ops.subrange(0, i + 1), arity, nconst) is None {
                    lemma_height_prefix(ops, arity, nconst, i + 1);
                }
                assert(ops.subrange(0, i + 1) =~= ops.subrange(0, i as int) + seq![op]);
                crate::semantics::lemma_run_append(
                    ops.subrange(0, i as int),
                    seq![op],
                    Seq::empty(),
                    params@,
                    pool,
                    bin,
                    cval,
                );
                assert(seq![op].drop_first() =~= Seq::<OpCode>::empty());
                assert(seq![op][0] == op);
            }
            match self.instructions[i] {
                OpCode::LoadParam(k) => {
                    stack.set(sp, params[k]);
                    sp = sp + 1;
                    assert(stack@.subrange(0, sp as int) =~= cur.push(params@[k as int]));
                    assert(step(cur, op, params@, pool, bin, cval) == Some(stack@.subrange(0, sp as int)));
                },
                OpCode::LoadConst(k) => {
                    stack.set(sp, constants[k]);
                    sp = sp + 1;
                    assert(stack@.subrange(0, sp as int) =~= cur.push(constants@[k as int]));
                    assert(cval(k as int) == constants@[k as int]);
                    assert(step(cur, op, params@, pool, bin, cval) == Some(stack@.subrange(0, sp as int)));
                },
                opc => {
                    let b = stack[sp - 1];
                    let a = stack[sp - 2];
                    assert(cur[cur.len() - 2] == a && cur.last() == b);
                    let v = match opc {
                        OpCode::Add => a.plus(b),
                        OpCode::Sub => a.minus(b),
                        OpCode::Mul => a.times(b),
                        OpCode::Div => {
                            if b.is_zero() {
                                proof {
                                    assert(run(ops.subrange(0, i + 1), Seq::empty(), params@, pool, bin, cval) is None);
                                    assert(ops =~= ops.subrange(0, i + 1) + ops.subrange(i + 1, ops.len() as int));
                                    crate::semantics::lemma_run_append(
                                        ops.subrange(0, i + 1),
                                        ops.subrange(i + 1, ops.len() as int),
                                        Seq::empty(),
                                        params@,
                                        pool,
                                        bin,
                                        cval,
                                    );
                                }
                                return Err(EvalError::DivByZero);
                            }
                            a.divide(b)
                        },
                        _ => a.power(b),
                    };
                    assert(bin(opc, a, b) == Some(v));
                    stack.set(sp - 2, v);
                    sp = sp - 1;
                    assert(stack@.subrange(0, sp as int) =~= cur.drop_last().drop_last().push(v));
                    assert(step(cur, op, params@, pool, bin, cval) == Some(stack@.subrange(0, sp as int)));
                },
            }
            assert(run(Seq::<OpCode>::empty(), stack@.subrange(0, sp as int), params@, pool, bin, cval) == Some(
                stack@.subrange(0, sp as int),
            ));
            i = i + 1;
        }
        assert(ops.subrange(0, ops.len() as int) == ops);
        Ok(stack[0])
    }
}

} // verus!
