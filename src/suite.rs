use vstd::prelude::*;
use vstd::seq_lib::group_to_multiset_ensures;
use crate::model::{Environment, Test};
use crate::text::{
    append, begins_with, chars_of, copy_range, lines, lines_of, replace, replace_all, same,
    starts_with, string_of, trim, trimmed,
};

verus! {

/// The analysis a test's directive selects.
#[derive(Clone, Copy, Debug, PartialEq, Eq, Structural)]
pub enum Analysis {
    Ac,
    Dc,
    Tran,
    Op,
    /// The test holds no analysis directive.
    Missing,
}

/// The analysis a trimmed line selects, if it is an analysis directive.
pub open spec fn directive_of(t: Seq<char>) -> Option<Analysis> {
    if starts_with(t, ".ac "@) {
        Some(Analysis::Ac)
    } else if starts_with(t, ".dc "@) {
        Some(Analysis::Dc)
    } else if starts_with(t, ".tran "@) {
        Some(Analysis::Tran)
    } else if starts_with(t, ".op"@) {
        Some(Analysis::Op)
    } else {
        None
    }
}

/// Index of the first line at or after `k` that is an analysis directive.
pub open spec fn first_directive(ls: Seq<Seq<char>>, k: int) -> Option<int>
    decreases ls.len() - k,
{
    if k < 0 || k >= ls.len() {
        None
    } else if directive_of(trim(ls[k])) is Some {
        Some(k)
    } else {
        first_directive(ls, k + 1)
    }
}

/// The analysis of a test program: that of its first directive.
pub open spec fn analysis_of(code: Seq<char>) -> Analysis {
    match first_directive(lines_of(code), 0) {
        Some(k) => directive_of(trim(lines_of(code)[k]))->0,
        None => Analysis::Missing,
    }
}

/// The first directive line of a program, as written, or nothing.
pub open spec fn analysis_line(code: Seq<char>) -> Seq<char> {
    match first_directive(lines_of(code), 0) {
        Some(k) => lines_of(code)[k],
        None => Seq::empty(),
    }
}

pub(crate) fn directive_exec(t: &[char]) -> (r: Option<Analysis>)
    ensures
        r == directive_of(t@),
{
    if begins_with(t, chars_of(".ac ").as_slice()) {
        Some(Analysis::Ac)
    } else if begins_with(t, chars_of(".dc ").as_slice()) {
        Some(Analysis::Dc)
    } else if begins_with(t, chars_of(".tran ").as_slice()) {
        Some(Analysis::Tran)
    } else if begins_with(t, chars_of(".op").as_slice()) {
        Some(Analysis::Op)
    } else {
        None
    }
}

/// The first directive of `code`: its analysis and its line as written.
pub fn find_directive(code: &[char]) -> (r: (Analysis, Vec<char>))
    ensures
        r.0 == analysis_of(code@),
        r.1@ == analysis_line(code@),
{
    let ls = lines(code);
    let ghost sl = lines_of(code@);
    let mut k: usize = 0;
    while k < ls.len()
        invariant
            k <= ls@.len(),
            sl == lines_of(code@),
            ls@.len() == sl.len(),
            forall|t: int| 0 <= t < ls@.len() ==> (#[trigger] ls@[t])@ == sl[t],
            first_directive(sl, 0) == first_directive(sl, k as int),
        decreases ls@.len() - k,
    {
        let t = trimmed(ls[k].as_slice());
        match directive_exec(t.as_slice()) {
            Some(a) => {
                let line = copy_range(ls[k].as_slice(), 0, ls[k].len());
                assert(ls@[k as int]@.subrange(0, ls@[k as int]@.len() as int) == ls@[k as int]@);
                return (a, line);
            },
            None => {},
        }
        k = k + 1;
    }
    (Analysis::Missing, Vec::new())
}

// ---------------------------------------------------------------- environments

/// `name=value`: how a binding enters a test's grouping key.
pub open spec fn env_sig(e: Environment) -> Seq<char> {
    e.name@ + "="@ + e.value@
}

pub open spec fn sigs(es: Seq<Environment>) -> Seq<Seq<char>> {
    Seq::new(es.len(), |i: int| env_sig(es[i]))
}

/// Two binding lists are the same once sorted.
pub open spec fn same_env(a: Seq<Environment>, b: Seq<Environment>) -> bool {
    sigs(a).to_multiset() == sigs(b).to_multiset()
}

/// Two tests share a simulation run: same bindings, same analysis.
pub open spec fn same_group(a: Test, b: Test) -> bool {
    analysis_of(a.spice_code@) == analysis_of(b.spice_code@) && same_env(a.environment@, b.environment@)
}

fn sig_exec(es: &Vec<Environment>) -> (r: Vec<Vec<char>>)
    ensures
        crate::expr::seqs(r@) == sigs(es@),
{
    let eq = chars_of("=");
    let mut r: Vec<Vec<char>> = Vec::new();
    let mut i: usize = 0;
    while i < es.len()
        invariant
            i <= es@.len(),
            eq@ == "="@,
            r@.len() == i,
            forall|t: int| 0 <= t < i ==> (#[trigger] r@[t])@ == env_sig(es@[t]),
        decreases es@.len() - i,
    {
        let mut s = chars_of(es[i].name.as_str());
        append(&mut s, eq.as_slice());
        append(&mut s, chars_of(es[i].value.as_str()).as_slice());
        r.push(s);
        i = i + 1;
    }
    assert(crate::expr::seqs(r@) =~= sigs(es@));
    r
}

fn count_exec(v: &Vec<Vec<char>>, x: &Vec<char>) -> (c: usize)
    ensures
        c == crate::expr::seqs(v@).to_multiset().count(x@),
{
    broadcast use group_to_multiset_ensures;

    let ghost sv = crate::expr::seqs(v@);
    let mut c: usize = 0;
    let mut i: usize = 0;
    while i < v.len()
        invariant
            i <= v@.len(),
            sv == crate::expr::seqs(v@),
            c <= i,
            c == sv.subrange(0, i as int).to_multiset().count(x@),
        decreases v@.len() - i,
    {
        assert(sv.subrange(0, i + 1) == sv.subrange(0, i as int).push(sv[i as int]));
        assert(sv[i as int] == v@[i as int]@);
        proof {
            sv.subrange(0, i as int).to_multiset_ensures();
        }
        assert(sv.subrange(0, i + 1).to_multiset() == sv.subrange(0, i as int).to_multiset().insert(
            sv[i as int],
        ));
        if same(v[i].as_slice(), x.as_slice()) {
            c = c + 1;
        }
        i = i + 1;
    }
    assert(sv.subrange(0, i as int) == sv);
    c
}

/// Every entry of `a` occurs as often in `a` as in `b`.
fn counts_agree(a: &Vec<Vec<char>>, b: &Vec<Vec<char>>) -> (r: bool)
    ensures
        r <==> forall|t: int|
            0 <= t < a@.len() ==> crate::expr::seqs(a@).to_multiset().count(#[trigger] a@[t]@)
                == crate::expr::seqs(b@).to_multiset().count(a@[t]@),
{
    let mut i: usize = 0;
    while i < a.len()
        invariant
            i <= a@.len(),
            forall|t: int|
                0 <= t < i ==> crate::expr::seqs(a@).to_multiset().count(#[trigger] a@[t]@)
                    == crate::expr::seqs(b@).to_multiset().count(a@[t]@),
        decreases a@.len() - i,
    {
        if count_exec(a, &a[i]) != count_exec(b, &a[i]) {
            return false;
        }
        i = i + 1;
    }
    true
}

fn same_env_exec(a: &Vec<Vec<char>>, b: &Vec<Vec<char>>) -> (r: bool)
    ensures
        r == (crate::expr::seqs(a@).to_multiset() == crate::expr::seqs(b@).to_multiset()),
{
    broadcast use group_to_multiset_ensures;

    let ghost sa = crate::expr::seqs(a@);
    let ghost sb = crate::expr::seqs(b@);
    let r1 = counts_agree(a, b);
    let r2 = counts_agree(b, a);
    if r1 && r2 {
        assert forall|x: Seq<char>| sa.to_multiset().count(x) == sb.to_multiset().count(x) by {
            if sa.contains(x) {
                let t = choose|t: int| 0 <= t < sa.len() && sa[t] == x;
                assert(a@[t]@ == x);
            } else if sb.contains(x) {
                let t = choose|t: int| 0 <= t < sb.len() && sb[t] == x;
                assert(b@[t]@ == x);
            }
        }
        assert(sa.to_multiset() =~= sb.to_multiset());
        true
    } else {
        if !r1 {
            let ghost t = choose|t: int|
                0 <= t < a@.len() && !(sa.to_multiset().count(#[trigger] a@[t]@) == sb.to_multiset().count(a@[t]@));
        } else {
            let ghost t = choose|t: int|
                0 <= t < b@.len() && !(sb.to_multiset().count(#[trigger] b@[t]@) == sa.to_multiset().count(b@[t]@));
        }
        false
    }
}


// ---------------------------------------------------------------- merging

/// `code` with each `{name}` placeholder replaced by its value, binding by binding.
pub open spec fn substitute(code: Seq<char>, envs: Seq<Environment>) -> Seq<char>
    decreases envs.len(),
{
    if envs.len() == 0 {
        code
    } else {
        replace_all(
            substitute(code, envs.drop_last()),
            "{"@ + envs.last().name@ + "}"@,
            envs.last().value@,
        )
    }
}

/// A test's program with its placeholders filled in.
pub open spec fn processed(t: Test) -> Seq<char> {
    substitute(t.spice_code@, t.environment@)
}

/// No earlier test shares a run with test `i`.
pub open spec fn is_leader(ts: Seq<Test>, i: int) -> bool {
    forall|j: int| 0 <= j < i ==> !same_group(ts[j], ts[i])
}

/// The tests among the first `k` that start a group, in order.
pub open spec fn leaders(ts: Seq<Test>, k: int) -> Seq<int>
    decreases k,
{
    if k <= 0 {
        Seq::empty()
    } else {
        leaders(ts, k - 1) + if is_leader(ts, k - 1) {
            seq![k - 1]
        } else {
            Seq::empty()
        }
    }
}

/// The tests among the first `k`, from `l` on, in the group of test `l`.
pub open spec fn members(ts: Seq<Test>, l: int, k: int) -> Seq<int>
    decreases k,
{
    if k <= 0 {
        Seq::empty()
    } else {
        members(ts, l, k - 1) + if k - 1 >= l && same_group(ts[l], ts[k - 1]) {
            seq![k - 1]
        } else {
            Seq::empty()
        }
    }
}

/// A trimmed line that a merged test keeps: not blank, not a comment, not a dot
/// command, not `run`.
pub open spec fn kept_line(t: Seq<char>) -> bool {
    t.len() > 0 && t[0] != '*' && t[0] != '.' && t != "run"@
}

/// The kept lines, each with a line break.
pub open spec fn kept(ls: Seq<Seq<char>>) -> Seq<char>
    decreases ls.len(),
{
    if ls.len() == 0 {
        Seq::empty()
    } else {
        kept(ls.drop_last()) + if kept_line(trim(ls.last())) {
            ls.last() + "\n"@
        } else {
            Seq::empty()
        }
    }
}

/// The names of tests `ms`, joined by `sep`.
pub open spec fn joined(ts: Seq<Test>, ms: Seq<int>, sep: Seq<char>) -> Seq<char>
    decreases ms.len(),
{
    if ms.len() == 0 {
        Seq::empty()
    } else if ms.len() == 1 {
        ts[ms[0]].name@
    } else {
        joined(ts, ms.drop_last(), sep) + sep + ts[ms.last()].name@
    }
}

/// The kept lines of every member, in order.
pub open spec fn merged_body(ts: Seq<Test>, ms: Seq<int>) -> Seq<char>
    decreases ms.len(),
{
    if ms.len() == 0 {
        Seq::empty()
    } else {
        merged_body(ts, ms.drop_last()) + kept(lines_of(processed(ts[ms.last()])))
    }
}

/// The program of a group: a lone test's own, else the first member's directive and
/// the kept lines of all members.
pub open spec fn merged_code(ts: Seq<Test>, ms: Seq<int>) -> Seq<char> {
    if ms.len() == 1 {
        processed(ts[ms[0]])
    } else {
        analysis_line(processed(ts[ms[0]])) + "\n"@ + merged_body(ts, ms)
    }
}

pub open spec fn merged_description(ts: Seq<Test>, ms: Seq<int>) -> Seq<char> {
    if ms.len() == 1 {
        ts[ms[0]].description@
    } else {
        "Merged from: "@ + joined(ts, ms, ", "@)
    }
}

/// The same bindings, in the same order.
pub open spec fn same_bindings(a: Seq<Environment>, b: Seq<Environment>) -> bool {
    a.len() == b.len() && forall|i: int|
        0 <= i < a.len() ==> (#[trigger] a[i]).name == b[i].name && a[i].value == b[i].value
}

pub open spec fn ints(v: Seq<usize>) -> Seq<int> {
    Seq::new(v.len(), |i: int| v[i] as int)
}

/// The placeholders of `envs` filled in `code`.
pub fn substitute_exec(code: &[char], envs: &Vec<Environment>) -> (r: Vec<char>)
    ensures
        r@ == substitute(code@, envs@),
{
    let open = chars_of("{");
    let close = chars_of("}");
    let mut r = copy_range(code, 0, code.len());
    assert(code@.subrange(0, code@.len() as int) == code@);
    let mut i: usize = 0;
    while i < envs.len()
        invariant
            i <= envs@.len(),
            open@ == "{"@,
            close@ == "}"@,
            r@ == substitute(code@, envs@.subrange(0, i as int)),
        decreases envs@.len() - i,
    {
        assert(envs@.subrange(0, i + 1).drop_last() == envs@.subrange(0, i as int));
        let mut pat = copy_range(open.as_slice(), 0, open.len());
        assert(open@.subrange(0, open@.len() as int) == open@);
        append(&mut pat, chars_of(envs[i].name.as_str()).as_slice());
        append(&mut pat, close.as_slice());
        proof {
            reveal_strlit("{");
        }
        let value = chars_of(envs[i].value.as_str());
        r = replace(r.as_slice(), pat.as_slice(), value.as_slice());
        i = i + 1;
    }
    assert(envs@.subrange(0, i as int) == envs@);
    r
}

/// The kept lines of `code`, each with a line break.
fn kept_exec(code: &[char]) -> (r: Vec<char>)
    ensures
        r@ == kept(lines_of(code@)),
{
    let ls = lines(code);
    let ghost sl = lines_of(code@);
    let run = chars_of("run");
    let nl = chars_of("\n");
    let mut r: Vec<char> = Vec::new();
    let mut k: usize = 0;
    while k < ls.len()
        invariant
            k <= ls@.len(),
            run@ == "run"@,
            nl@ == "\n"@,
            sl == lines_of(code@),
            ls@.len() == sl.len(),
            forall|t: int| 0 <= t < ls@.len() ==> (#[trigger] ls@[t])@ == sl[t],
            r@ == kept(sl.subrange(0, k as int)),
        decreases ls@.len() - k,
    {
        assert(sl.subrange(0, k + 1).drop_last() == sl.subrange(0, k as int));
        assert(sl.subrange(0, k + 1).last() == ls@[k as int]@);
        let t = trimmed(ls[k].as_slice());
        if t.len() > 0 && t[0] != '*' && t[0] != '.' && !same(t.as_slice(), run.as_slice()) {
            append(&mut r, ls[k].as_slice());
            append(&mut r, nl.as_slice());
        }
        k = k + 1;
    }
    assert(sl.subrange(0, k as int) == sl);
    r
}

/// A copy of a binding list.
fn copy_env(es: &Vec<Environment>) -> (r: Vec<Environment>)
    ensures
        same_bindings(r@, es@),
{
    let mut r: Vec<Environment> = Vec::new();
    let mut i: usize = 0;
    while i < es.len()
        invariant
            i <= es@.len(),
            r@.len() == i,
            forall|t: int| 0 <= t < i ==> (#[trigger] r@[t]).name == es@[t].name && r@[t].value == es@[t].value,
        decreases es@.len() - i,
    {
        r.push(Environment { name: es[i].name.clone(), value: es[i].value.clone() });
        i = i + 1;
    }
    r
}


/// The merged test of group `ms` (given by index, first member first).
fn merge_group(
    tests: &Vec<Test>,
    progs: &Vec<Vec<char>>,
    ms: &Vec<usize>,
) -> (r: Test)
    requires
        ms@.len() > 0,
        progs@.len() == tests@.len(),
        forall|t: int| 0 <= t < progs@.len() ==> (#[trigger] progs@[t])@ == processed(tests@[t]),
        forall|t: int| 0 <= t < ms@.len() ==> #[trigger] ms@[t] < tests@.len(),
    ensures
        r.name@ == joined(tests@, ints(ms@), "+"@),
        r.spice_code@ == merged_code(tests@, ints(ms@)),
        r.description@ == merged_description(tests@, ints(ms@)),
        same_bindings(r.environment@, tests@[ms@[0] as int].environment@),
{
    let ghost ts = tests@;
    let first = ms[0];
    let environment = copy_env(&tests[first].environment);
    if ms.len() == 1 {
        assert(ints(ms@)[0] == first);
        return Test {
            name: tests[first].name.clone(),
            spice_code: string_of(progs[first].as_slice()),
            description: tests[first].description.clone(),
            environment,
        };
    }
    let plus = chars_of("+");
    let comma = chars_of(", ");
    let nl = chars_of("\n");
    let mut name: Vec<char> = Vec::new();
    let mut list: Vec<char> = Vec::new();
    let mut body: Vec<char> = Vec::new();
    let mut k: usize = 0;
    while k < ms.len()
        invariant
            k <= ms@.len(),
            plus@ == "+"@,
            comma@ == ", "@,
            ts == tests@,
            progs@.len() == tests@.len(),
            forall|t: int| 0 <= t < progs@.len() ==> (#[trigger] progs@[t])@ == processed(tests@[t]),
            forall|t: int| 0 <= t < ms@.len() ==> #[trigger] ms@[t] < tests@.len(),
            name@ == joined(ts, ints(ms@).subrange(0, k as int), "+"@),
            list@ == joined(ts, ints(ms@).subrange(0, k as int), ", "@),
            body@ == merged_body(ts, ints(ms@).subrange(0, k as int)),
        decreases ms@.len() - k,
    {
        let ghost sub = ints(ms@).subrange(0, k + 1);
        assert(sub.drop_last() == ints(ms@).subrange(0, k as int));
        assert(sub.last() == ms@[k as int]);
        let m = ms[k];
        let nm = chars_of(tests[m].name.as_str());
        if k > 0 {
            append(&mut name, plus.as_slice());
            append(&mut list, comma.as_slice());
        } else {
            assert(sub[0] == ms@[0]);
        }
        append(&mut name, nm.as_slice());
        append(&mut list, nm.as_slice());
        let kept_lines = kept_exec(progs[m].as_slice());
        append(&mut body, kept_lines.as_slice());
        k = k + 1;
    }
    assert(ints(ms@).subrange(0, k as int) == ints(ms@));
    let (_, line) = find_directive(progs[first].as_slice());
    let mut code = line;
    append(&mut code, nl.as_slice());
    append(&mut code, body.as_slice());
    let mut desc = chars_of("Merged from: ");
    append(&mut desc, list.as_slice());
    assert(ints(ms@)[0] == first);
    Test {
        name: string_of(name.as_slice()),
        spice_code: string_of(code.as_slice()),
        description: string_of(desc.as_slice()),
        environment,
    }
}

/// Merges tests that share their bindings (in any order) and their analysis into one
/// run per group, groups in the order of their first test.
pub fn merge_tests_by_environment(tests: &Vec<Test>) -> (r: Vec<Test>)
    ensures
        r@.len() == leaders(tests@, tests@.len() as int).len(),
        forall|k: int|
            0 <= k < r@.len() ==> {
                let ms = members(tests@, leaders(tests@, tests@.len() as int)[k], tests@.len() as int);
                &&& (#[trigger] r@[k]).name@ == joined(tests@, ms, "+"@)
                &&& r@[k].spice_code@ == merged_code(tests@, ms)
                &&& r@[k].description@ == merged_description(tests@, ms)
                &&& same_bindings(r@[k].environment@, tests@[ms[0]].environment@)
            },
{
    let n = tests.len();
    let ghost ts = tests@;
    let mut keys: Vec<Vec<Vec<char>>> = Vec::new();
    let mut kinds: Vec<Analysis> = Vec::new();
    let mut progs: Vec<Vec<char>> = Vec::new();
    let mut i: usize = 0;
    while i < n
        invariant
            i <= n == ts.len(),
            ts == tests@,
            keys@.len() == i,
            kinds@.len() == i,
            progs@.len() == i,
            forall|t: int| 0 <= t < i ==> crate::expr::seqs((#[trigger] keys@[t])@) == sigs(ts[t].environment@),
            forall|t: int| 0 <= t < i ==> #[trigger] kinds@[t] == analysis_of(ts[t].spice_code@),
            forall|t: int| 0 <= t < i ==> (#[trigger] progs@[t])@ == processed(ts[t]),
        decreases n - i,
    {
        keys.push(sig_exec(&tests[i].environment));
        let code = chars_of(tests[i].spice_code.as_str());
        let (kind, _) = find_directive(code.as_slice());
        kinds.push(kind);
        progs.push(substitute_exec(code.as_slice(), &tests[i].environment));
        i = i + 1;
    }
    let mut out: Vec<Test> = Vec::new();
    let ghost mut lead: Seq<int> = Seq::empty();
    i = 0;
    while i < n
        invariant
            i <= n == ts.len(),
            ts == tests@,
            keys@.len() == n,
            kinds@.len() == n,
            progs@.len() == n,
            forall|t: int| 0 <= t < n ==> crate::expr::seqs((#[trigger] keys@[t])@) == sigs(ts[t].environment@),
            forall|t: int| 0 <= t < n ==> #[trigger] kinds@[t] == analysis_of(ts[t].spice_code@),
            forall|t: int| 0 <= t < n ==> (#[trigger] progs@[t])@ == processed(ts[t]),
            lead == leaders(ts, i as int),
            out@.len() == lead.len(),
            forall|k: int|
                0 <= k < out@.len() ==> {
                    let ms = members(ts, lead[k], n as int);
                    &&& (#[trigger] out@[k]).name@ == joined(ts, ms, "+"@)
                    &&& out@[k].spice_code@ == merged_code(ts, ms)
                    &&& out@[k].description@ == merged_description(ts, ms)
                    &&& same_bindings(out@[k].environment@, ts[ms[0]].environment@)
                },
        decreases n - i,
    {
        let mut leader = true;
        let mut j: usize = 0;
        while j < i
            invariant
                j <= i < n == ts.len(),
                keys@.len() == n,
                kinds@.len() == n,
                forall|t: int| 0 <= t < n ==> crate::expr::seqs((#[trigger] keys@[t])@) == sigs(ts[t].environment@),
                forall|t: int| 0 <= t < n ==> #[trigger] kinds@[t] == analysis_of(ts[t].spice_code@),
                leader == forall|t: int| 0 <= t < j ==> !same_group(ts[t], ts[i as int]),
            decreases i - j,
        {
            if kinds[j] == kinds[i] && same_env_exec(&keys[j], &keys[i]) {
                leader = false;
            }
            j = j + 1;
        }
        if leader {
            let mut ms: Vec<usize> = Vec::new();
            let mut m: usize = 0;
            while m < n
                invariant
                    m <= n == ts.len(),
                    i < n,
                    keys@.len() == n,
                    kinds@.len() == n,
                    forall|t: int| 0 <= t < n ==> crate::expr::seqs((#[trigger] keys@[t])@) == sigs(ts[t].environment@),
                    forall|t: int| 0 <= t < n ==> #[trigger] kinds@[t] == analysis_of(ts[t].spice_code@),
                    ints(ms@) == members(ts, i as int, m as int),
                    forall|t: int| 0 <= t < ms@.len() ==> #[trigger] ms@[t] < m,
                decreases n - m,
            {
                if m >= i && kinds[i] == kinds[m] && same_env_exec(&keys[i], &keys[m]) {
                    ms.push(m);
                }
                assert(ints(ms@) =~= members(ts, i as int, m + 1));
                m = m + 1;
            }
            assert(members(ts, i as int, i + 1).len() > 0);
            proof {
                lemma_members_grow(ts, i as int, i + 1, n as int);
            }
            let merged = merge_group(tests, &progs, &ms);
            out.push(merged);
        }
        proof {
            lead = leaders(ts, i + 1);
        }
        i = i + 1;
    }
    out
}

proof fn lemma_members_grow(ts: Seq<Test>, l: int, a: int, b: int)
    requires
        0 <= a <= b,
    ensures
        members(ts, l, a).len() <= members(ts, l, b).len(),
        members(ts, l, a).len() > 0 ==> members(ts, l, b)[0] == members(ts, l, a)[0],
    decreases b - a,
{
    if a < b {
        lemma_members_grow(ts, l, a, b - 1);
    }
}


/// Each test with its placeholders filled in; name, description and bindings kept.
pub fn process_test_environments(tests: &Vec<Test>) -> (r: Vec<Test>)
    ensures
        r@.len() == tests@.len(),
        forall|i: int|
            0 <= i < r@.len() ==> {
                &&& (#[trigger] r@[i]).name == tests@[i].name
                &&& r@[i].spice_code@ == processed(tests@[i])
                &&& r@[i].description == tests@[i].description
                &&& same_bindings(r@[i].environment@, tests@[i].environment@)
            },
{
    let mut r: Vec<Test> = Vec::new();
    let mut i: usize = 0;
    while i < tests.len()
        invariant
            i <= tests@.len(),
            r@.len() == i,
            forall|t: int|
                0 <= t < i ==> {
                    &&& (#[trigger] r@[t]).name == tests@[t].name
                    &&& r@[t].spice_code@ == processed(tests@[t])
                    &&& r@[t].description == tests@[t].description
                    &&& same_bindings(r@[t].environment@, tests@[t].environment@)
                },
        decreases tests@.len() - i,
    {
        let t = &tests[i];
        let code = substitute_exec(chars_of(t.spice_code.as_str()).as_slice(), &t.environment);
        r.push(
            Test {
                name: t.name.clone(),
                spice_code: string_of(code.as_slice()),
                description: t.description.clone(),
                environment: copy_env(&t.environment),
            },
        );
        i = i + 1;
    }
    r
}


proof fn lemma_same_group_equiv(a: Test, b: Test, c: Test)
    ensures
        same_group(a, a),
        same_group(a, b) ==> same_group(b, a),
        same_group(a, b) && same_group(b, c) ==> same_group(a, c),
{
}

proof fn lemma_leaders(ts: Seq<Test>, k: int)
    requires
        0 <= k <= ts.len(),
    ensures
        forall|t: int| 0 <= t < leaders(ts, k).len() ==> 0 <= #[trigger] leaders(ts, k)[t] < k && is_leader(ts, leaders(ts, k)[t]),
        forall|t1: int, t2: int| 0 <= t1 < t2 < leaders(ts, k).len() ==> #[trigger] leaders(ts, k)[t1] < #[trigger] leaders(ts, k)[t2],
        forall|x: int| 0 <= x < k && is_leader(ts, x) ==> exists|t: int| 0 <= t < leaders(ts, k).len() && #[trigger] leaders(ts, k)[t] == x,
    decreases k,
{
    if k > 0 {
        lemma_leaders(ts, k - 1);
        let prev = leaders(ts, k - 1);
        let cur = leaders(ts, k);
        if is_leader(ts, k - 1) {
            assert(cur == prev + seq![k - 1]);
            assert(cur[prev.len() as int] == k - 1);
            assert forall|x: int| 0 <= x < k && is_leader(ts, x) implies exists|t: int| 0 <= t < cur.len() && #[trigger] cur[t] == x by {
                if x < k - 1 {
                    let t = choose|t: int| 0 <= t < prev.len() && #[trigger] prev[t] == x;
                    assert(cur[t] == x);
                }
            }
        } else {
            assert(cur =~= prev);
        }
    }
}

/// The least test in the group of test `i` starts the group.
proof fn lemma_least_member(ts: Seq<Test>, i: int, w: int) -> (m: int)
    requires
        0 <= w <= i < ts.len(),
        same_group(ts[w], ts[i]),
    ensures
        0 <= m <= w,
        same_group(ts[m], ts[i]),
        is_leader(ts, m),
    decreases w,
{
    if exists|j: int| 0 <= j < w && same_group(ts[j], ts[i]) {
        let j = choose|j: int| 0 <= j < w && same_group(ts[j], ts[i]);
        lemma_least_member(ts, i, j)
    } else {
        assert forall|j: int| 0 <= j < w implies !same_group(ts[j], ts[w]) by {
            lemma_same_group_equiv(ts[j], ts[w], ts[i]);
        }
        w
    }
}

/// Merging gives one run per group of tests with the same bindings and analysis:
/// every test falls in the group of some run, and no two runs share a group.
pub proof fn law_one_run_per_group(ts: Seq<Test>)
    ensures
        forall|i: int|
            #![trigger ts[i]]
            0 <= i < ts.len() ==> exists|k: int|
                0 <= k < leaders(ts, ts.len() as int).len() && same_group(
                    ts[#[trigger] leaders(ts, ts.len() as int)[k]],
                    ts[i],
                ),
        forall|k1: int, k2: int|
            0 <= k1 < leaders(ts, ts.len() as int).len() && 0 <= k2 < leaders(ts, ts.len() as int).len()
                && k1 != k2 ==> !same_group(
                ts[#[trigger] leaders(ts, ts.len() as int)[k1]],
                ts[#[trigger] leaders(ts, ts.len() as int)[k2]],
            ),
{
    let n = ts.len() as int;
    let ls = leaders(ts, n);
    lemma_leaders(ts, n);
    assert forall|i: int| #![trigger ts[i]] 0 <= i < n implies exists|k: int| 0 <= k < ls.len() && same_group(ts[#[trigger] ls[k]], ts[i]) by {
        lemma_same_group_equiv(ts[i], ts[i], ts[i]);
        let m = lemma_least_member(ts, i, i);
        let k = choose|k: int| 0 <= k < ls.len() && #[trigger] ls[k] == m;
        assert(same_group(ts[ls[k]], ts[i]));
    }
    assert forall|k1: int, k2: int| 0 <= k1 < ls.len() && 0 <= k2 < ls.len() && k1 != k2 implies !same_group(
        ts[#[trigger] ls[k1]],
        ts[#[trigger] ls[k2]],
    ) by {
        if k1 < k2 {
            assert(ls[k1] < ls[k2]);
            assert(is_leader(ts, ls[k2]));
        } else {
            assert(ls[k2] < ls[k1]);
            assert(is_leader(ts, ls[k1]));
            lemma_same_group_equiv(ts[ls[k1]], ts[ls[k2]], ts[ls[k1]]);
        }
    }
}


/// The first test whose program holds no analysis directive: such a test cannot run.
pub fn test_without_directive(tests: &Vec<Test>) -> (r: Option<usize>)
    ensures
        r matches Some(i) ==> i < tests@.len() && analysis_of(tests@[i as int].spice_code@)
            == Analysis::Missing && forall|j: int|
            0 <= j < i ==> analysis_of(#[trigger] tests@[j].spice_code@) != Analysis::Missing,
        r is None ==> forall|j: int|
            0 <= j < tests@.len() ==> analysis_of(#[trigger] tests@[j].spice_code@) != Analysis::Missing,
{
    let mut i: usize = 0;
    while i < tests.len()
        invariant
            i <= tests@.len(),
            forall|j: int| 0 <= j < i ==> analysis_of(#[trigger] tests@[j].spice_code@) != Analysis::Missing,
        decreases tests@.len() - i,
    {
        let code = chars_of(tests[i].spice_code.as_str());
        let (kind, _) = find_directive(code.as_slice());
        if kind == Analysis::Missing {
            return Some(i);
        }
        i = i + 1;
    }
    None
}

} // verus!
