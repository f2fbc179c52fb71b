use vstd::prelude::*;
use crate::expr::{
    balanced, c_add, c_atom, c_mul, c_pow, compile_spec, emit, find_op, intern, is_decimal,
    is_non_finite_word, atom_char, position_of, same_literal, slot_of, strip_spaces, Code,
    CompileError, OpCode, Scalar, bin_of, slots,
};

verus! {

/// One instruction of the stack machine over an arbitrary number type: `bin` gives
/// the binary operations (`None` for a failing one, such as division by zero) and
/// `cval` the value of each pool slot.
pub open spec fn step<A>(
    st: Seq<A>,
    op: OpCode,
    params: Seq<A>,
    pool: Seq<Seq<char>>,
    bin: spec_fn(OpCode, A, A) -> Option<A>,
    cval: spec_fn(int) -> A,
) -> Option<Seq<A>> {
    match op {
        OpCode::LoadParam(i) => if i < params.len() {
            Some(st.push(params[i as int]))
        } else {
            None
        },
        OpCode::LoadConst(k) => if k < pool.len() {
            Some(st.push(cval(k as int)))
        } else {
            None
        },
        _ => if st.len() >= 2 {
            match bin(op, st[st.len() - 2], st.last()) {
                Some(v) => Some(st.drop_last().drop_last().push(v)),
                None => None,
            }
        } else {
            None
        },
    }
}

/// The stack after running `ops` from `st`, or `None` where an instruction fails.
pub open spec fn run<A>(
    ops: Seq<OpCode>,
    st: Seq<A>,
    params: Seq<A>,
    pool: Seq<Seq<char>>,
    bin: spec_fn(OpCode, A, A) -> Option<A>,
    cval: spec_fn(int) -> A,
) -> Option<Seq<A>>
    decreases ops.len(),
{
    if ops.len() == 0 {
        Some(st)
    } else {
        match step(st, ops[0], params, pool, bin, cval) {
            Some(st2) => run(ops.drop_first(), st2, params, pool, bin, cval),
            None => None,
        }
    }
}

pub open spec fn apply2<A>(
    bin: spec_fn(OpCode, A, A) -> Option<A>,
    op: OpCode,
    a: Option<A>,
    b: Option<A>,
) -> Option<A> {
    match (a, b) {
        (Some(x), Some(y)) => bin(op, x, y),
        _ => None,
    }
}

/// The value of an expression read by the grammar directly, as a tree evaluator reads
/// it: additive level.
pub open spec fn e_add<A>(
    names: Seq<Seq<char>>,
    s: Seq<char>,
    params: Seq<A>,
    bin: spec_fn(OpCode, A, A) -> Option<A>,
    lit: spec_fn(Seq<char>) -> A,
) -> Option<A>
    decreases s.len(), 3int,
{
    match find_op(s, 0) {
        Some(pos) => if 0 <= pos < s.len() {
            apply2(
                bin,
                if s[pos] == '+' {
                    OpCode::Add
                } else {
                    OpCode::Sub
                },
                e_add(names, s.subrange(0, pos), params, bin, lit),
                e_mul(names, s.subrange(pos + 1, s.len() as int), params, bin, lit),
            )
        } else {
            None
        },
        None => e_mul(names, s, params, bin, lit),
    }
}

pub open spec fn e_mul<A>(
    names: Seq<Seq<char>>,
    s: Seq<char>,
    params: Seq<A>,
    bin: spec_fn(OpCode, A, A) -> Option<A>,
    lit: spec_fn(Seq<char>) -> A,
) -> Option<A>
    decreases s.len(), 2int,
{
    match find_op(s, 1) {
        Some(pos) => if 0 <= pos < s.len() {
            apply2(
                bin,
                if s[pos] == '*' {
                    OpCode::Mul
                } else {
                    OpCode::Div
                },
                e_mul(names, s.subrange(0, pos), params, bin, lit),
                e_pow(names, s.subrange(pos + 1, s.len() as int), params, bin, lit),
            )
        } else {
            None
        },
        None => e_pow(names, s, params, bin, lit),
    }
}

pub open spec fn e_pow<A>(
    names: Seq<Seq<char>>,
    s: Seq<char>,
    params: Seq<A>,
    bin: spec_fn(OpCode, A, A) -> Option<A>,
    lit: spec_fn(Seq<char>) -> A,
) -> Option<A>
    decreases s.len(), 1int,
{
    match find_op(s, 2) {
        Some(pos) => if 0 <= pos < s.len() {
            apply2(
                bin,
                OpCode::Pow,
                e_atom(names, s.subrange(0, pos), params, bin, lit),
                e_atom(names, s.subrange(pos + 1, s.len() as int), params, bin, lit),
            )
        } else {
            None
        },
        None => e_atom(names, s, params, bin, lit),
    }
}

pub open spec fn e_atom<A>(
    names: Seq<Seq<char>>,
    s: Seq<char>,
    params: Seq<A>,
    bin: spec_fn(OpCode, A, A) -> Option<A>,
    lit: spec_fn(Seq<char>) -> A,
) -> Option<A>
    decreases s.len(), 0int,
{
    if s.len() == 0 {
        None
    } else if s[0] == '(' {
        if s.len() < 2 || s[s.len() - 1] != ')' {
            None
        } else {
            e_add(names, s.subrange(1, s.len() - 1), params, bin, lit)
        }
    } else if is_decimal(s) {
        Some(lit(s))
    } else {
        match position_of(names, s) {
            Some(i) => if 0 <= i < params.len() {
                Some(params[i])
            } else {
                None
            },
            None => None,
        }
    }
}

/// The value of expression `e` (white space ignored) over `params`.
pub open spec fn tree_value<A>(
    names: Seq<Seq<char>>,
    e: Seq<char>,
    params: Seq<A>,
    bin: spec_fn(OpCode, A, A) -> Option<A>,
    lit: spec_fn(Seq<char>) -> A,
) -> Option<A> {
    e_add(names, strip_spaces(e), params, bin, lit)
}

/// The values of the pool's slots when each literal reads as `lit` gives it.
pub open spec fn reader<A>(pool: Seq<Seq<char>>, lit: spec_fn(Seq<char>) -> A) -> spec_fn(int) -> A {
    |k: int| lit(pool[k])
}

/// Literals that denote the same number read as the same value.
pub open spec fn reads_by_value<A>(lit: spec_fn(Seq<char>) -> A) -> bool {
    forall|a: Seq<char>, b: Seq<char>| #[trigger] same_literal(a, b) ==> lit(a) == lit(b)
}

pub open spec fn is_prefix<T>(a: Seq<T>, b: Seq<T>) -> bool {
    a.len() <= b.len() && forall|i: int| 0 <= i < a.len() ==> a[i] == b[i]
}

/// The stack a value leaves: pushed on `st`, or nothing where evaluation failed.
pub open spec fn pushed<A>(st: Seq<A>, v: Option<A>) -> Option<Seq<A>> {
    match v {
        Some(x) => Some(st.push(x)),
        None => None,
    }
}

/// The code a compile step appended, run from `st` against the final pool.
pub open spec fn emitted(c: Code, c2: Code) -> Seq<OpCode> {
    c2.0.subrange(c.0.len() as int, c2.0.len() as int)
}

pub(crate) proof fn lemma_run_append<A>(
    a: Seq<OpCode>,
    b: Seq<OpCode>,
    st: Seq<A>,
    params: Seq<A>,
    pool: Seq<Seq<char>>,
    bin: spec_fn(OpCode, A, A) -> Option<A>,
    cval: spec_fn(int) -> A,
)
    ensures
        run(a + b, st, params, pool, bin, cval) == match run(a, st, params, pool, bin, cval) {
            Some(st2) => run(b, st2, params, pool, bin, cval),
            None => None,
        },
    decreases a.len(),
{
    if a.len() == 0 {
        assert(a + b =~= b);
    } else {
        assert((a + b).drop_first() =~= a.drop_first() + b);
        assert((a + b)[0] == a[0]);
        match step(st, a[0], params, pool, bin, cval) {
            Some(st2) => lemma_run_append(a.drop_first(), b, st2, params, pool, bin, cval),
            None => {},
        }
    }
}

/// What each compile step guarantees: it extends the code and the pool, and the code
/// it appends leaves the step's value on the stack.
pub open spec fn step_correct<A>(
    r: Result<Code, CompileError>,
    c: Code,
    v: Option<A>,
    params: Seq<A>,
    pool: Seq<Seq<char>>,
    bin: spec_fn(OpCode, A, A) -> Option<A>,
    lit: spec_fn(Seq<char>) -> A,
) -> bool {
    r matches Ok(c2) ==> {
        &&& is_prefix(c.0, c2.0)
        &&& is_prefix(c.1, c2.1)
        &&& (is_prefix(c2.1, pool) ==> forall|st: Seq<A>|
            #[trigger] run(emitted(c, c2), st, params, pool, bin, reader(pool, lit)) == pushed(st, v))
    }
}

proof fn lemma_binary<A>(
    c: Code,
    c1: Code,
    c2: Code,
    op: OpCode,
    a: Option<A>,
    b: Option<A>,
    params: Seq<A>,
    pool: Seq<Seq<char>>,
    bin: spec_fn(OpCode, A, A) -> Option<A>,
    lit: spec_fn(Seq<char>) -> A,
)
    requires
        !(op is LoadParam) && !(op is LoadConst),
        step_correct(Ok::<Code, CompileError>(c1), c, a, params, pool, bin, lit),
        step_correct(Ok::<Code, CompileError>(c2), c1, b, params, pool, bin, lit),
    ensures
        step_correct(Ok::<Code, CompileError>(emit(c2, op)), c, apply2(bin, op, a, b), params, pool, bin, lit),
{
    let c3 = emit(c2, op);
    assert(is_prefix(c.0, c3.0));
    assert(is_prefix(c.1, c3.1));
    if is_prefix(c3.1, pool) {
        assert(is_prefix(c2.1, pool));
        assert(is_prefix(c1.1, pool));
        assert forall|st: Seq<A>| #[trigger] run(emitted(c, c3), st, params, pool, bin, reader(pool, lit)) == pushed(
            st,
            apply2(bin, op, a, b),
        ) by {
            let s1 = emitted(c, c1);
            let s2 = emitted(c1, c2);
            assert(emitted(c, c3) =~= s1 + s2 + seq![op]);
            lemma_run_append(s1 + s2, seq![op], st, params, pool, bin, reader(pool, lit));
            lemma_run_append(s1, s2, st, params, pool, bin, reader(pool, lit));
            assert(run(s1, st, params, pool, bin, reader(pool, lit)) == pushed(st, a));
            match a {
                Some(x) => {
                    assert(run(s2, st.push(x), params, pool, bin, reader(pool, lit)) == pushed(st.push(x), b));
                    match b {
                        Some(y) => {
                            let st2 = st.push(x).push(y);
                            assert(run(s1 + s2, st, params, pool, bin, reader(pool, lit)) == Some(st2));
                            assert(st2[st2.len() - 2] == x);
                            assert(st2.last() == y);
                            assert(st2.drop_last().drop_last() =~= st);
                            assert(seq![op][0] == op);
                            assert(seq![op].drop_first() =~= Seq::<OpCode>::empty());
                            match bin(op, x, y) {
                                Some(v) => {
                                    assert(step(st2, op, params, pool, bin, reader(pool, lit)) == Some(st.push(v)));
                                    assert(run(Seq::<OpCode>::empty(), st.push(v), params, pool, bin, reader(pool, lit)) == Some(st.push(v)));
                                    assert(run(seq![op], st2, params, pool, bin, reader(pool, lit)) == Some(st.push(v)));
                                },
                                None => {
                                    assert(step(st2, op, params, pool, bin, reader(pool, lit)) is None);
                                },
                            }
                        },
                        None => {
                            assert(run(s1 + s2, st, params, pool, bin, reader(pool, lit)) is None);
                        },
                    }
                },
                None => {
                    assert(run(s1 + s2, st, params, pool, bin, reader(pool, lit)) is None);
                },
            }
        }
    }
}


proof fn lemma_single<A>(
    c: Code,
    op: OpCode,
    newpool: Seq<Seq<char>>,
    v: Option<A>,
    params: Seq<A>,
    pool: Seq<Seq<char>>,
    bin: spec_fn(OpCode, A, A) -> Option<A>,
    lit: spec_fn(Seq<char>) -> A,
)
    requires
        is_prefix(c.1, newpool),
        is_prefix(newpool, pool) ==> forall|st: Seq<A>| #[trigger] step(st, op, params, pool, bin, reader(pool, lit)) == pushed(st, v),
    ensures
        step_correct(Ok::<Code, CompileError>((c.0.push(op), newpool)), c, v, params, pool, bin, lit),
{
    let c2 = (c.0.push(op), newpool);
    assert(is_prefix(c.0, c2.0));
    if is_prefix(c2.1, pool) {
        assert forall|st: Seq<A>| #[trigger] run(emitted(c, c2), st, params, pool, bin, reader(pool, lit)) == pushed(st, v) by {
            assert(emitted(c, c2) =~= seq![op]);
            assert(seq![op].drop_first() =~= Seq::<OpCode>::empty());
            assert(step(st, op, params, pool, bin, reader(pool, lit)) == pushed(st, v));
            match v {
                Some(x) => {
                    assert(run(Seq::<OpCode>::empty(), st.push(x), params, pool, bin, reader(pool, lit)) == Some(st.push(x)));
                },
                None => {},
            }
        }
    }
}

proof fn lemma_c_add<A>(
    names: Seq<Seq<char>>,
    s: Seq<char>,
    c: Code,
    params: Seq<A>,
    pool: Seq<Seq<char>>,
    bin: spec_fn(OpCode, A, A) -> Option<A>,
    lit: spec_fn(Seq<char>) -> A,
)
    requires
        params.len() == names.len(),
        names.len() <= usize::MAX,
        pool.len() <= usize::MAX,
        reads_by_value(lit),
    ensures
        step_correct(c_add(names, s, c), c, e_add(names, s, params, bin, lit), params, pool, bin, lit),
        c_add(names, s, c) matches Ok(c2) ==> c2.1.len() <= c.1.len() + s.len(),
    decreases s.len(), 3int,
{
    match find_op(s, 0) {
        Some(pos) => if 0 <= pos < s.len() {
            let l = s.subrange(0, pos);
            let r = s.subrange(pos + 1, s.len() as int);
            let op = if s[pos] == '+' {
                OpCode::Add
            } else {
                OpCode::Sub
            };
            lemma_c_add(names, l, c, params, pool, bin, lit);
            match c_add(names, l, c) {
                Ok(c1) => {
                    lemma_c_mul(names, r, c1, params, pool, bin, lit);
                    match c_mul(names, r, c1) {
                        Ok(c2) => {
                            lemma_binary(
                                c,
                                c1,
                                c2,
                                op,
                                e_add(names, l, params, bin, lit),
                                e_mul(names, r, params, bin, lit),
                                params,
                                pool,
                                bin,
                                lit,
                            );
                        },
                        Err(_) => {},
                    }
                },
                Err(_) => {},
            }
        },
        None => {
            lemma_c_mul(names, s, c, params, pool, bin, lit);
        },
    }
}

proof fn lemma_c_mul<A>(
    names: Seq<Seq<char>>,
    s: Seq<char>,
    c: Code,
    params: Seq<A>,
    pool: Seq<Seq<char>>,
    bin: spec_fn(OpCode, A, A) -> Option<A>,
    lit: spec_fn(Seq<char>) -> A,
)
    requires
        params.len() == names.len(),
        names.len() <= usize::MAX,
        pool.len() <= usize::MAX,
        reads_by_value(lit),
    ensures
        step_correct(c_mul(names, s, c), c, e_mul(names, s, params, bin, lit), params, pool, bin, lit),
        c_mul(names, s, c) matches Ok(c2) ==> c2.1.len() <= c.1.len() + s.len(),
    decreases s.len(), 2int,
{
    match find_op(s, 1) {
        Some(pos) => if 0 <= pos < s.len() {
            let l = s.subrange(0, pos);
            let r = s.subrange(pos + 1, s.len() as int);
            let op = if s[pos] == '*' {
                OpCode::Mul
            } else {
                OpCode::Div
            };
            lemma_c_mul(names, l, c, params, pool, bin, lit);
            match c_mul(names, l, c) {
                Ok(c1) => {
                    lemma_c_pow(names, r, c1, params, pool, bin, lit);
                    match c_pow(names, r, c1) {
                        Ok(c2) => {
                            lemma_binary(
                                c,
                                c1,
                                c2,
                                op,
                                e_mul(names, l, params, bin, lit),
                                e_pow(names, r, params, bin, lit),
                                params,
                                pool,
                                bin,
                                lit,
                            );
                        },
                        Err(_) => {},
                    }
                },
                Err(_) => {},
            }
        },
        None => {
            lemma_c_pow(names, s, c, params, pool, bin, lit);
        },
    }
}

proof fn lemma_c_pow<A>(
    names: Seq<Seq<char>>,
    s: Seq<char>,
    c: Code,
    params: Seq<A>,
    pool: Seq<Seq<char>>,
    bin: spec_fn(OpCode, A, A) -> Option<A>,
    lit: spec_fn(Seq<char>) -> A,
)
    requires
        params.len() == names.len(),
        names.len() <= usize::MAX,
        pool.len() <= usize::MAX,
        reads_by_value(lit),
    ensures
        step_correct(c_pow(names, s, c), c, e_pow(names, s, params, bin, lit), params, pool, bin, lit),
        c_pow(names, s, c) matches Ok(c2) ==> c2.1.len() <= c.1.len() + s.len(),
    decreases s.len(), 1int,
{
    match find_op(s, 2) {
        Some(pos) => if 0 <= pos < s.len() {
            let l = s.subrange(0, pos);
            let r = s.subrange(pos + 1, s.len() as int);
            lemma_c_atom(names, l, c, params, pool, bin, lit);
            match c_atom(names, l, c) {
                Ok(c1) => {
                    lemma_c_atom(names, r, c1, params, pool, bin, lit);
                    match c_atom(names, r, c1) {
                        Ok(c2) => {
                            lemma_binary(
                                c,
                                c1,
                                c2,
                                OpCode::Pow,
                                e_atom(names, l, params, bin, lit),
                                e_atom(names, r, params, bin, lit),
                                params,
                                pool,
                                bin,
                                lit,
                            );
                        },
                        Err(_) => {},
                    }
                },
                Err(_) => {},
            }
        },
        None => {
            lemma_c_atom(names, s, c, params, pool, bin, lit);
        },
    }
}

proof fn lemma_c_atom<A>(
    names: Seq<Seq<char>>,
    s: Seq<char>,
    c: Code,
    params: Seq<A>,
    pool: Seq<Seq<char>>,
    bin: spec_fn(OpCode, A, A) -> Option<A>,
    lit: spec_fn(Seq<char>) -> A,
)
    requires
        params.len() == names.len(),
        names.len() <= usize::MAX,
        pool.len() <= usize::MAX,
        reads_by_value(lit),
    ensures
        step_correct(c_atom(names, s, c), c, e_atom(names, s, params, bin, lit), params, pool, bin, lit),
        c_atom(names, s, c) matches Ok(c2) ==> c2.1.len() <= c.1.len() + s.len(),
    decreases s.len(), 0int,
{
    if s.len() == 0 {
    } else if s[0] == '(' {
        if s.len() < 2 || s[s.len() - 1] != ')' {
        } else if !balanced(s.subrange(1, s.len() - 1)) {
        } else {
            lemma_c_add(names, s.subrange(1, s.len() - 1), c, params, pool, bin, lit);
        }
    } else if !(forall|i: int| 0 <= i < s.len() ==> atom_char(#[trigger] s[i])) {
    } else if is_non_finite_word(s) {
    } else if is_decimal(s) {
        lemma_constant(names, s, c, params, pool, bin, lit);
    } else {
        lemma_position(names, s);
        if position_of(names, s) is Some {
            lemma_parameter(names, s, c, params, pool, bin, lit);
        }
    }
}

/// A witness that is least among those below `w`.
proof fn lemma_least(names: Seq<Seq<char>>, s: Seq<char>, w: int) -> (m: int)
    requires
        0 <= w < names.len(),
        names[w] == s,
    ensures
        0 <= m <= w,
        names[m] == s,
        forall|j: int| 0 <= j < m ==> #[trigger] names[j] != s,
    decreases w,
{
    if exists|j: int| 0 <= j < w && names[j] == s {
        let j = choose|j: int| 0 <= j < w && names[j] == s;
        lemma_least(names, s, j)
    } else {
        w
    }
}

proof fn lemma_least_slot(pool: Seq<Seq<char>>, s: Seq<char>, w: int) -> (m: int)
    requires
        0 <= w < pool.len(),
        same_literal(pool[w], s),
    ensures
        0 <= m <= w,
        same_literal(pool[m], s),
        forall|j: int| 0 <= j < m ==> !same_literal(#[trigger] pool[j], s),
    decreases w,
{
    if exists|j: int| 0 <= j < w && same_literal(pool[j], s) {
        let j = choose|j: int| 0 <= j < w && same_literal(pool[j], s);
        lemma_least_slot(pool, s, j)
    } else {
        w
    }
}

proof fn lemma_slot(pool: Seq<Seq<char>>, s: Seq<char>)
    ensures
        slot_of(pool, s) matches Some(i) ==> 0 <= i < pool.len() && same_literal(pool[i], s),
{
    if exists|i: int| 0 <= i < pool.len() && same_literal(pool[i], s) {
        let w = choose|i: int| 0 <= i < pool.len() && same_literal(pool[i], s);
        let m = lemma_least_slot(pool, s, w);
        assert(0 <= m < pool.len() && same_literal(pool[m], s) && forall|j: int|
            0 <= j < m ==> !same_literal(#[trigger] pool[j], s));
    }
}

proof fn lemma_position(names: Seq<Seq<char>>, s: Seq<char>)
    ensures
        position_of(names, s) matches Some(i) ==> 0 <= i < names.len() && names[i] == s,
{
    if exists|i: int| 0 <= i < names.len() && names[i] == s {
        let w = choose|i: int| 0 <= i < names.len() && names[i] == s;
        let m = lemma_least(names, s, w);
        assert(0 <= m < names.len() && names[m] == s && forall|j: int| 0 <= j < m ==> #[trigger] names[j] != s);
    }
}

proof fn lemma_constant<A>(
    names: Seq<Seq<char>>,
    s: Seq<char>,
    c: Code,
    params: Seq<A>,
    pool: Seq<Seq<char>>,
    bin: spec_fn(OpCode, A, A) -> Option<A>,
    lit: spec_fn(Seq<char>) -> A,
)
    requires
        pool.len() <= usize::MAX,
        s.len() > 0,
        is_decimal(s),
        reads_by_value(lit),
    ensures
        ({
            let (k, p2) = intern(c.1, s);
            &&& step_correct(Ok::<Code, CompileError>((c.0.push(OpCode::LoadConst(k as usize)), p2)), c, Some(lit(s)), params, pool, bin, lit)
            &&& p2.len() <= c.1.len() + s.len()
        }),
{
    let (k, p2) = intern(c.1, s);
    lemma_slot(c.1, s);
    match slot_of(c.1, s) {
        Some(i) => {},
        None => {
            assert(p2 =~= c.1.push(s));
            assert(same_literal(s, s));
        },
    }
    assert(0 <= k < p2.len() && same_literal(p2[k], s));
    assert(is_prefix(c.1, p2));
    if is_prefix(p2, pool) {
        assert(pool[k] == p2[k]);
        assert(lit(pool[k]) == lit(s));
        assert((k as usize) as int == k);
        assert forall|st: Seq<A>| #[trigger] step(st, OpCode::LoadConst(k as usize), params, pool, bin, reader(pool, lit)) == pushed(st, Some(lit(s))) by {}
    }
    lemma_single(c, OpCode::LoadConst(k as usize), p2, Some(lit(s)), params, pool, bin, lit);
}

proof fn lemma_parameter<A>(
    names: Seq<Seq<char>>,
    s: Seq<char>,
    c: Code,
    params: Seq<A>,
    pool: Seq<Seq<char>>,
    bin: spec_fn(OpCode, A, A) -> Option<A>,
    lit: spec_fn(Seq<char>) -> A,
)
    requires
        params.len() == names.len(),
        names.len() <= usize::MAX,
        position_of(names, s) is Some,
    ensures
        step_correct(
            Ok::<Code, CompileError>(emit(c, OpCode::LoadParam(position_of(names, s)->Some_0 as usize))),
            c,
            Some(params[position_of(names, s)->Some_0]),
            params,
            pool,
            bin,
            lit,
        ),
{
    lemma_position(names, s);
    let i = position_of(names, s)->Some_0;
    assert((i as usize) as int == i);
    assert(is_prefix(c.1, c.1));
    assert forall|st: Seq<A>| #[trigger] step(st, OpCode::LoadParam(i as usize), params, pool, bin, reader(pool, lit)) == pushed(st, Some(params[i])) by {}
    lemma_single(c, OpCode::LoadParam(i as usize), c.1, Some(params[i]), params, pool, bin, lit);
}

proof fn lemma_strip_len(e: Seq<char>)
    ensures
        strip_spaces(e).len() <= e.len(),
    decreases e.len(),
{
    if e.len() > 0 {
        lemma_strip_len(e.drop_last());
    }
}

/// The bytecode of a compiled expression.
pub open spec fn code_of(r: Result<Code, CompileError>) -> Seq<OpCode> {
    match r {
        Ok(c) => c.0,
        Err(_) => Seq::empty(),
    }
}

/// The literal pool of a compiled expression.
pub open spec fn pool_of(r: Result<Code, CompileError>) -> Seq<Seq<char>> {
    match r {
        Ok(c) => c.1,
        Err(_) => Seq::empty(),
    }
}

/// Compiling an expression and running its bytecode gives what evaluating the
/// expression as a tree gives, for any arithmetic: any number type, any binary
/// operations (failing ones included, such as division by zero), any reading of
/// literals.
pub proof fn law_compile_agrees_with_tree<A>(
    names: Seq<Seq<char>>,
    e: Seq<char>,
    params: Seq<A>,
    bin: spec_fn(OpCode, A, A) -> Option<A>,
    lit: spec_fn(Seq<char>) -> A,
)
    requires
        compile_spec(names, e) is Ok,
        params.len() == names.len(),
        names.len() <= usize::MAX,
        e.len() <= usize::MAX,
        reads_by_value(lit),
    ensures
        run(
            code_of(compile_spec(names, e)),
            Seq::empty(),
            params,
            pool_of(compile_spec(names, e)),
            bin,
            reader(pool_of(compile_spec(names, e)), lit),
        ) == pushed(Seq::<A>::empty(), tree_value(names, e, params, bin, lit)),
{
    let c0: Code = (Seq::empty(), Seq::empty());
    let c = compile_spec(names, e)->Ok_0;
    let pool = c.1;
    lemma_strip_len(e);
    lemma_c_add(names, strip_spaces(e), c0, params, Seq::empty(), bin, lit);
    assert(pool.len() <= usize::MAX);
    lemma_c_add(names, strip_spaces(e), c0, params, pool, bin, lit);
    assert(is_prefix(pool, pool));
    assert(emitted(c0, c) =~= c.0);
    assert(run(emitted(c0, c), Seq::<A>::empty(), params, pool, bin, reader(pool, lit)) == pushed(
        Seq::<A>::empty(),
        tree_value(names, e, params, bin, lit),
    ));
}


/// An expression of literals alone compiles to bytecode that, run with no parameters,
/// leaves exactly its folded value: the tree evaluation of its literals.
pub proof fn law_literals_fold<A>(
    e: Seq<char>,
    bin: spec_fn(OpCode, A, A) -> Option<A>,
    lit: spec_fn(Seq<char>) -> A,
)
    requires
        compile_spec(Seq::empty(), e) is Ok,
        e.len() <= usize::MAX,
        reads_by_value(lit),
    ensures
        run(
            code_of(compile_spec(Seq::empty(), e)),
            Seq::empty(),
            Seq::<A>::empty(),
            pool_of(compile_spec(Seq::empty(), e)),
            bin,
            reader(pool_of(compile_spec(Seq::empty(), e)), lit),
        ) == pushed(Seq::<A>::empty(), tree_value(Seq::empty(), e, Seq::<A>::empty(), bin, lit)),
{
    law_compile_agrees_with_tree(Seq::empty(), e, Seq::<A>::empty(), bin, lit);
}


proof fn lemma_run_congruent<A>(
    ops: Seq<OpCode>,
    st: Seq<A>,
    params: Seq<A>,
    pool: Seq<Seq<char>>,
    bin: spec_fn(OpCode, A, A) -> Option<A>,
    c1: spec_fn(int) -> A,
    c2: spec_fn(int) -> A,
)
    requires
        forall|k: int| 0 <= k < pool.len() ==> #[trigger] c1(k) == c2(k),
    ensures
        run(ops, st, params, pool, bin, c1) == run(ops, st, params, pool, bin, c2),
    decreases ops.len(),
{
    if ops.len() > 0 {
        if let OpCode::LoadConst(k) = ops[0] {
            if k < pool.len() {
                assert(c1(k as int) == c2(k as int));
            }
        }
        assert(step(st, ops[0], params, pool, bin, c1) == step(st, ops[0], params, pool, bin, c2));
        match step(st, ops[0], params, pool, bin, c1) {
            Some(st2) => lemma_run_congruent(ops.drop_first(), st2, params, pool, bin, c1, c2),
            None => {},
        }
    }
}

/// `CompiledExpression::evaluate` agrees with a tree evaluator: when the literal
/// values handed to it are `lit` of the pool's literals, the stack machine's run on
/// the compiled code of `e` leaves the tree value of `e` under `V`'s arithmetic, and
/// fails (the division-by-zero error) exactly where the tree evaluation meets a zero
/// divisor.
pub proof fn law_evaluation_agrees_with_tree<V: Scalar>(
    names: Seq<Seq<char>>,
    e: Seq<char>,
    params: Seq<V>,
    constants: Seq<V>,
    lit: spec_fn(Seq<char>) -> V,
)
    requires
        compile_spec(names, e) is Ok,
        params.len() == names.len(),
        names.len() <= usize::MAX,
        e.len() <= usize::MAX,
        reads_by_value(lit),
        constants.len() == pool_of(compile_spec(names, e)).len(),
        forall|k: int|
            0 <= k < constants.len() ==> constants[k] == lit(
                #[trigger] pool_of(compile_spec(names, e))[k],
            ),
    ensures
        run(
            code_of(compile_spec(names, e)),
            Seq::empty(),
            params,
            pool_of(compile_spec(names, e)),
            bin_of::<V>(),
            slots(constants),
        ) == pushed(Seq::<V>::empty(), tree_value(names, e, params, bin_of::<V>(), lit)),
{
    let pool = pool_of(compile_spec(names, e));
    law_compile_agrees_with_tree(names, e, params, bin_of::<V>(), lit);
    assert forall|k: int| 0 <= k < pool.len() implies #[trigger] slots(constants)(k) == reader(pool, lit)(k) by {
        assert(constants[k] == lit(pool[k]));
    }
    lemma_run_congruent(
        code_of(compile_spec(names, e)),
        Seq::empty(),
        params,
        pool,
        bin_of::<V>(),
        slots(constants),
        reader(pool, lit),
    );
}

} // verus!
