use vstd::prelude::*;
use crate::expr::{seqs, strs};
use crate::model::Test;
use crate::suite::directive_of;
use crate::text::{
    append, chars_of, lines, lines_of, copy_range, find, find_from, first_word, first_word_exec, last_index,
    last_index_exec, begins_with, same, starts_with, string_of, trim, trimmed, word_end,
    word_end_exec,
};

verus! {

/// The first line is a title: it is not a dot command.
pub open spec fn has_title(lines: Seq<Seq<char>>) -> bool {
    lines.len() > 0 && !starts_with(trim(lines[0]), "."@)
}

/// `.param name = value` for each parameter.
pub open spec fn param_lines(names: Seq<Seq<char>>, values: Seq<Seq<char>>) -> Seq<Seq<char>> {
    Seq::new(names.len(), |i: int| ".param "@ + names[i] + " = "@ + values[i])
}

/// The title (if any), then the parameter block.
pub open spec fn header(lines: Seq<Seq<char>>, names: Seq<Seq<char>>, values: Seq<Seq<char>>) -> Seq<
    Seq<char>,
> {
    (if has_title(lines) {
        seq![lines[0]]
    } else {
        Seq::empty()
    }) + seq![""@, "* === Optimization Parameters (Auto-generated) ==="@] + param_lines(names, values)
        + seq!["* === End Parameters ==="@, ""@]
}

/// The attribute pairs `(key, parameter)` of component `comp`: each parameter named
/// `comp_key`, split at its last `_`, in parameter order.
pub open spec fn attributes(names: Seq<Seq<char>>, comp: Seq<char>) -> Seq<(Seq<char>, Seq<char>)>
    decreases names.len(),
{
    if names.len() == 0 {
        Seq::empty()
    } else {
        let n = names.last();
        attributes(names.drop_last(), comp) + match last_index(n, '_') {
            Some(u) => if n.subrange(0, u) == comp {
                seq![(n.subrange(u + 1, n.len() as int), n)]
            } else {
                Seq::empty()
            },
            None => Seq::empty(),
        }
    }
}

/// The first ` key=value` of `s` with the value replaced by `{param}`.
pub open spec fn rewrite_one(s: Seq<char>, key: Seq<char>, param: Seq<char>) -> Seq<char> {
    let pat = " "@ + key + "="@;
    match find_from(s, pat, 0) {
        Some(pos) => {
            let vs = pos + pat.len();
            let ve = word_end(s, vs);
            s.subrange(0, vs - 1) + "={"@ + param + "}"@ + s.subrange(ve, s.len() as int)
        },
        None => s,
    }
}

/// A component line with each of `attrs` rewritten, in order.
pub open spec fn rewrite(s: Seq<char>, attrs: Seq<(Seq<char>, Seq<char>)>) -> Seq<char>
    decreases attrs.len(),
{
    if attrs.len() == 0 {
        s
    } else {
        let a = attrs.last();
        rewrite_one(rewrite(s, attrs.drop_last()), a.0, a.1)
    }
}

/// What a body line becomes: dropped (`.param` or `.end`), rewritten (an `X`/`M` component with
/// parameters), or kept.
pub open spec fn body_line(line: Seq<char>, names: Seq<Seq<char>>) -> Seq<Seq<char>> {
    let t = trim(line);
    if starts_with(t, ".param"@) || t == ".end"@ {
        Seq::empty()
    } else if (starts_with(t, "X"@) || starts_with(t, "M"@)) && attributes(names, first_word(t)).len()
        > 0 {
        seq![rewrite(line, attributes(names, first_word(t)))]
    } else {
        seq![line]
    }
}

pub open spec fn body(lines: Seq<Seq<char>>, names: Seq<Seq<char>>) -> Seq<Seq<char>>
    decreases lines.len(),
{
    if lines.len() == 0 {
        Seq::empty()
    } else {
        body(lines.drop_last(), names) + body_line(lines.last(), names)
    }
}

/// The parameterised netlist: header, rewritten body, and a single closing `.end`.
pub open spec fn parameterized(lines: Seq<Seq<char>>, names: Seq<Seq<char>>, values: Seq<Seq<char>>) -> Seq<
    Seq<char>,
> {
    let start = if has_title(lines) {
        1int
    } else {
        0int
    };
    (header(lines, names, values) + body(lines.subrange(start, lines.len() as int), names)).push(
        ".end"@,
    )
}

fn attributes_exec(names: &Vec<Vec<char>>, comp: &[char]) -> (r: Vec<(Vec<char>, Vec<char>)>)
    ensures
        r@.len() == attributes(seqs(names@), comp@).len(),
        forall|i: int|
            0 <= i < r@.len() ==> (#[trigger] r@[i]).0@ == attributes(seqs(names@), comp@)[i].0
                && r@[i].1@ == attributes(seqs(names@), comp@)[i].1,
{
    let ghost ns = seqs(names@);
    let mut r: Vec<(Vec<char>, Vec<char>)> = Vec::new();
    let mut k: usize = 0;
    while k < names.len()
        invariant
            k <= names@.len(),
            ns == seqs(names@),
            r@.len() == attributes(ns.subrange(0, k as int), comp@).len(),
            forall|i: int|
                0 <= i < r@.len() ==> (#[trigger] r@[i]).0@ == attributes(ns.subrange(0, k as int), comp@)[i].0
                    && r@[i].1@ == attributes(ns.subrange(0, k as int), comp@)[i].1,
        decreases names@.len() - k,
    {
        assert(ns.subrange(0, k + 1).drop_last() == ns.subrange(0, k as int));
        assert(ns.subrange(0, k + 1).last() == names@[k as int]@);
        let n = &names[k];
        let nlen = n.len();
        match last_index_exec(n.as_slice(), '_') {
            Some(u) => {
                let pre = copy_range(n.as_slice(), 0, u);
                if same(pre.as_slice(), comp) {
                    let key = copy_range(n.as_slice(), u + 1, nlen);
                    let full = copy_range(n.as_slice(), 0, n.len());
                    assert(n@.subrange(0, n@.len() as int) == n@);
                    r.push((key, full));
                }
            },
            None => {},
        }
        k = k + 1;
    }
    assert(ns.subrange(0, k as int) == ns);
    r
}

fn rewrite_one_exec(s: &[char], key: &[char], param: &[char]) -> (r: Vec<char>)
    ensures
        r@ == rewrite_one(s@, key@, param@),
{
    let mut pat = chars_of(" ");
    append(&mut pat, key);
    append(&mut pat, chars_of("=").as_slice());
    proof {
        reveal_strlit(" ");
        reveal_strlit("=");
    }
    let n = s.len();
    match find(s, pat.as_slice(), 0) {
        None => {
            let r = copy_range(s, 0, n);
            assert(s@.subrange(0, n as int) == s@);
            r
        },
        Some(pos) => {
            proof {
                crate::text::lemma_find_bound(s@, pat@, 0);
            }
            let vs = pos + pat.len();
            let ve = word_end_exec(s, vs);
            let mut r = copy_range(s, 0, vs - 1);
            append(&mut r, chars_of("={").as_slice());
            append(&mut r, param);
            append(&mut r, chars_of("}").as_slice());
            let tail = copy_range(s, ve, n);
            append(&mut r, tail.as_slice());
            r
        },
    }
}

fn rewrite_exec(line: &[char], attrs: &Vec<(Vec<char>, Vec<char>)>, ghost_attrs: Ghost<
    Seq<(Seq<char>, Seq<char>)>,
>) -> (r: Vec<char>)
    requires
        attrs@.len() == ghost_attrs@.len(),
        forall|i: int|
            0 <= i < attrs@.len() ==> (#[trigger] attrs@[i]).0@ == ghost_attrs@[i].0 && attrs@[i].1@
                == ghost_attrs@[i].1,
    ensures
        r@ == rewrite(line@, ghost_attrs@),
{
    let mut r = copy_range(line, 0, line.len());
    assert(line@.subrange(0, line@.len() as int) == line@);
    let mut k: usize = 0;
    while k < attrs.len()
        invariant
            k <= attrs@.len(),
            attrs@.len() == ghost_attrs@.len(),
            forall|i: int|
                0 <= i < attrs@.len() ==> (#[trigger] attrs@[i]).0@ == ghost_attrs@[i].0
                    && attrs@[i].1@ == ghost_attrs@[i].1,
            r@ == rewrite(line@, ghost_attrs@.subrange(0, k as int)),
        decreases attrs@.len() - k,
    {
        assert(ghost_attrs@.subrange(0, k + 1).drop_last() == ghost_attrs@.subrange(0, k as int));
        r = rewrite_one_exec(r.as_slice(), attrs[k].0.as_slice(), attrs[k].1.as_slice());
        k = k + 1;
    }
    assert(ghost_attrs@.subrange(0, k as int) =~= ghost_attrs@);
    r
}

/// The attribute pairs `(key, parameter)` as views.
pub open spec fn pair_views(v: Seq<(String, String)>) -> Seq<(Seq<char>, Seq<char>)> {
    Seq::new(v.len(), |i: int| (v[i].0@, v[i].1@))
}

/// Points each ` key=value` of a component line at its parameter: `key={param}`.
pub fn parameterize_component_line(line: &str, params: &Vec<(String, String)>) -> (r: String)
    ensures
        r@ == rewrite(line@, pair_views(params@)),
{
    let mut attrs: Vec<(Vec<char>, Vec<char>)> = Vec::new();
    let mut i: usize = 0;
    while i < params.len()
        invariant
            i <= params@.len(),
            attrs@.len() == i,
            forall|t: int|
                0 <= t < i ==> (#[trigger] attrs@[t]).0@ == pair_views(params@)[t].0 && attrs@[t].1@
                    == pair_views(params@)[t].1,
        decreases params@.len() - i,
    {
        attrs.push((chars_of(params[i].0.as_str()), chars_of(params[i].1.as_str())));
        i = i + 1;
    }
    let l = chars_of(line);
    let rw = rewrite_exec(l.as_slice(), &attrs, Ghost(pair_views(params@)));
    string_of(rw.as_slice())
}

proof fn lemma_strs_push(v: Seq<String>, x: String)
    ensures
        strs(v.push(x)) == strs(v).push(x@),
{
    assert(strs(v.push(x)) =~= strs(v).push(x@));
}

/// Rewrites a netlist to take its values from the parameters: keeps the title, inserts
/// a `.param name = value` block, drops earlier `.param` and `.end` lines, points each
/// matching component attribute at its parameter, and closes with a single `.end`.
pub fn parameterize_netlist(netlist_lines: &Vec<String>, names: &Vec<String>, values: &Vec<String>) -> (r:
    Vec<String>)
    requires
        names@.len() == values@.len(),
    ensures
        strs(r@) == parameterized(strs(netlist_lines@), strs(names@), strs(values@)),
{
    let ghost ls = strs(netlist_lines@);
    let ghost ns = strs(names@);
    let ghost vs = strs(values@);
    let lines = crate::expr::char_vecs(netlist_lines);
    let nm = crate::expr::char_vecs(names);
    let mut out: Vec<String> = Vec::new();
    let mut title = false;
    if lines.len() > 0 {
        let t0 = trimmed(lines[0].as_slice());
        if !begins_with(t0.as_slice(), chars_of(".").as_slice()) {
            title = true;
        }
    }
    assert(title == has_title(ls));
    if title {
        proof {
            lemma_strs_push(out@, netlist_lines@[0]);
        }
        out.push(netlist_lines[0].clone());
    }
    let blank = String::new();
    proof {
        reveal_strlit("");
        assert(""@ =~= Seq::<char>::empty());
        lemma_strs_push(out@, blank);
    }
    out.push(blank);
    let banner = string_of(chars_of("* === Optimization Parameters (Auto-generated) ===").as_slice());
    proof {
        lemma_strs_push(out@, banner);
    }
    out.push(banner);
    let ghost pre = (if title {
        seq![ls[0]]
    } else {
        Seq::empty()
    }) + seq![""@, "* === Optimization Parameters (Auto-generated) ==="@];
    assert(strs(out@) =~= pre);
    let mut i: usize = 0;
    while i < names.len()
        invariant
            i <= names@.len() == values@.len(),
            ns == strs(names@),
            vs == strs(values@),
            strs(out@) == pre + param_lines(ns, vs).subrange(0, i as int),
        decreases names@.len() - i,
    {
        let mut line = chars_of(".param ");
        append(&mut line, chars_of(names[i].as_str()).as_slice());
        append(&mut line, chars_of(" = ").as_slice());
        append(&mut line, chars_of(values[i].as_str()).as_slice());
        let ps = string_of(line.as_slice());
        proof {
            lemma_strs_push(out@, ps);
            assert(param_lines(ns, vs).subrange(0, i + 1) =~= param_lines(ns, vs).subrange(0, i as int).push(ps@));
        }
        out.push(ps);
        assert(strs(out@) =~= pre + param_lines(ns, vs).subrange(0, i + 1));
        i = i + 1;
    }
    let closing = string_of(chars_of("* === End Parameters ===").as_slice());
    proof {
        lemma_strs_push(out@, closing);
    }
    out.push(closing);
    let blank2 = String::new();
    proof {
        lemma_strs_push(out@, blank2);
    }
    out.push(blank2);
    assert(param_lines(ns, vs).subrange(0, i as int) == param_lines(ns, vs));
    assert(strs(out@) =~= header(ls, ns, vs));
    let start: usize = if title { 1 } else { 0 };
    let ghost hd = strs(out@);
    let mut k: usize = start;
    while k < lines.len()
        invariant
            start <= k <= lines@.len(),
            lines@.len() == netlist_lines@.len(),
            ls == strs(netlist_lines@),
            seqs(lines@) == ls,
            seqs(nm@) == ns,
            strs(out@) == hd + body(ls.subrange(start as int, k as int), ns),
        decreases lines@.len() - k,
    {
        assert(ls.subrange(start as int, k + 1).drop_last() == ls.subrange(start as int, k as int));
        assert(ls.subrange(start as int, k + 1).last() == lines@[k as int]@);
        let line = &lines[k];
        let t = trimmed(line.as_slice());
        if begins_with(t.as_slice(), chars_of(".param").as_slice()) || same(
            t.as_slice(),
            chars_of(".end").as_slice(),
        ) {
            assert(strs(out@) =~= hd + body(ls.subrange(start as int, k + 1), ns));
        } else {
            let comp_line = begins_with(t.as_slice(), chars_of("X").as_slice()) || begins_with(t.as_slice(), chars_of("M").as_slice());
            let mut done = false;
            if comp_line {
                let comp = first_word_exec(t.as_slice());
                let attrs = attributes_exec(&nm, comp.as_slice());
                if attrs.len() > 0 {
                    let rw = rewrite_exec(line.as_slice(), &attrs, Ghost(attributes(ns, comp@)));
                    let rs = string_of(rw.as_slice());
                    proof {
                        lemma_strs_push(out@, rs);
                    }
                    out.push(rs);
                    done = true;
                }
            }
            if !done {
                proof {
                    lemma_strs_push(out@, netlist_lines@[k as int]);
                }
                out.push(netlist_lines[k].clone());
            }
            assert(strs(out@) =~= hd + body(ls.subrange(start as int, k + 1), ns));
        }
        k = k + 1;
    }
    assert(ls.subrange(start as int, k as int) == ls.subrange(start as int, ls.len() as int));
    let end = chars_of(".end");
    let es = string_of(end.as_slice());
    proof {
        lemma_strs_push(out@, es);
    }
    out.push(es);
    assert(strs(out@) =~= parameterized(ls, ns, vs));
    out
}

/// The trimmed, non-empty lines of a netlist file.
pub open spec fn content_lines(ls: Seq<Seq<char>>) -> Seq<Seq<char>>
    decreases ls.len(),
{
    if ls.len() == 0 {
        Seq::empty()
    } else {
        content_lines(ls.drop_last()) + if trim(ls.last()).len() > 0 {
            seq![trim(ls.last())]
        } else {
            Seq::empty()
        }
    }
}

/// The lines of a netlist file's text, trimmed, blank ones left out.
pub fn netlist_lines(content: &str) -> (r: Vec<String>)
    ensures
        strs(r@) == content_lines(lines_of(content@)),
{
    let c = chars_of(content);
    let ls = lines(c.as_slice());
    let ghost sl = lines_of(content@);
    let mut r: Vec<String> = Vec::new();
    let mut k: usize = 0;
    while k < ls.len()
        invariant
            k <= ls@.len(),
            sl == lines_of(content@),
            ls@.len() == sl.len(),
            forall|t: int| 0 <= t < ls@.len() ==> (#[trigger] ls@[t])@ == sl[t],
            strs(r@) == content_lines(sl.subrange(0, k as int)),
        decreases ls@.len() - k,
    {
        assert(sl.subrange(0, k + 1).drop_last() == sl.subrange(0, k as int));
        assert(sl.subrange(0, k + 1).last() == ls@[k as int]@);
        let t = trimmed(ls[k].as_slice());
        if t.len() > 0 {
            let ts = string_of(t.as_slice());
            proof {
                lemma_strs_push(r@, ts);
            }
            r.push(ts);
        }
        assert(strs(r@) =~= content_lines(sl.subrange(0, k + 1)));
        k = k + 1;
    }
    assert(sl.subrange(0, k as int) == sl);
    r
}

/// The analysis directives of a program, trimmed, in order.
pub open spec fn directives(ls: Seq<Seq<char>>) -> Seq<Seq<char>>
    decreases ls.len(),
{
    if ls.len() == 0 {
        Seq::empty()
    } else {
        directives(ls.drop_last()) + if directive_of(trim(ls.last())) is Some {
            seq![trim(ls.last())]
        } else {
            Seq::empty()
        }
    }
}

pub open spec fn all_directives(ts: Seq<Test>) -> Seq<Seq<char>>
    decreases ts.len(),
{
    if ts.len() == 0 {
        Seq::empty()
    } else {
        all_directives(ts.drop_last()) + directives(lines_of(ts.last().spice_code@))
    }
}

/// Index of the first line that reads `.end` once trimmed.
pub open spec fn first_end(n: Seq<Seq<char>>, k: int) -> Option<int>
    decreases n.len() - k,
{
    if k < 0 || k >= n.len() {
        None
    } else if trim(n[k]) == ".end"@ {
        Some(k)
    } else {
        first_end(n, k + 1)
    }
}

/// The netlist with its `.end` moved after the tests' analysis directives.
pub open spec fn with_directives(n: Seq<Seq<char>>, ts: Seq<Test>) -> Seq<Seq<char>> {
    let body = match first_end(n, 0) {
        Some(k) => n.remove(k),
        None => n,
    };
    body + all_directives(ts) + seq![".end"@]
}

fn first_end_exec(netlist: &Vec<String>) -> (r: Option<usize>)
    ensures
        r matches Some(k) ==> k < netlist@.len() && first_end(strs(netlist@), 0) == Some(k as int),
        r is None ==> first_end(strs(netlist@), 0) is None,
{
    let end = chars_of(".end");
    let ghost n0 = strs(netlist@);
    let mut j: usize = 0;
    while j < netlist.len()
        invariant
            j <= netlist@.len(),
            end@ == ".end"@,
            n0 == strs(netlist@),
            first_end(n0, 0) == first_end(n0, j as int),
        decreases netlist@.len() - j,
    {
        let t = trimmed(chars_of(netlist[j].as_str()).as_slice());
        assert(n0[j as int] == netlist@[j as int]@);
        if same(t.as_slice(), end.as_slice()) {
            return Some(j);
        }
        j = j + 1;
    }
    None
}

/// Places every test's analysis directive before the closing `.end`.
pub fn add_analysis_directives(netlist: &mut Vec<String>, tests: &Vec<Test>)
    ensures
        strs(final(netlist)@) == with_directives(strs(old(netlist)@), tests@),
{
    let end = chars_of(".end");
    let ghost n0 = strs(netlist@);
    let found = first_end_exec(netlist);
    match found {
        Some(k) => {
            netlist.remove(k);
            assert(strs(netlist@) =~= n0.remove(k as int));
        },
        None => {},
    }
    let ghost base = strs(netlist@);
    let mut i: usize = 0;
    while i < tests.len()
        invariant
            i <= tests@.len(),
            strs(netlist@) == base + all_directives(tests@.subrange(0, i as int)),
        decreases tests@.len() - i,
    {
        assert(tests@.subrange(0, i + 1).drop_last() == tests@.subrange(0, i as int));
        let code = chars_of(tests[i].spice_code.as_str());
        let ls = lines(code.as_slice());
        let ghost sl = lines_of(code@);
        let ghost mid = strs(netlist@);
        let mut k: usize = 0;
        while k < ls.len()
            invariant
                k <= ls@.len(),
                sl == lines_of(tests@[i as int].spice_code@),
                ls@.len() == sl.len(),
                forall|t: int| 0 <= t < ls@.len() ==> (#[trigger] ls@[t])@ == sl[t],
                strs(netlist@) == mid + directives(sl.subrange(0, k as int)),
            decreases ls@.len() - k,
        {
            assert(sl.subrange(0, k + 1).drop_last() == sl.subrange(0, k as int));
            assert(sl.subrange(0, k + 1).last() == ls@[k as int]@);
            let t = trimmed(ls[k].as_slice());
            if crate::suite::directive_exec(t.as_slice()).is_some() {
                let ts = string_of(t.as_slice());
                proof {
                    lemma_strs_push(netlist@, ts);
                }
                netlist.push(ts);
            }
            assert(strs(netlist@) =~= mid + directives(sl.subrange(0, k + 1)));
            k = k + 1;
        }
        assert(sl.subrange(0, k as int) == sl);
        assert(strs(netlist@) =~= base + all_directives(tests@.subrange(0, i + 1)));
        i = i + 1;
    }
    assert(tests@.subrange(0, i as int) == tests@);
    let es = string_of(end.as_slice());
    proof {
        lemma_strs_push(netlist@, es);
    }
    netlist.push(es);
    assert(strs(netlist@) =~= with_directives(n0, tests@));
}

} // verus!
