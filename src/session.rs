use vstd::prelude::*;
use crate::expr::strs;
use crate::model::{Environment, Test};
use crate::suite::directive_of;
use crate::text::{
    append, chars_of, copy_range, find, first_word, first_word_exec, has, contains, lines,
    lines_of, lower_of, lowercase, same, string_of, trim, trimmed,
};

verus! {

/// The simulator command that applies a binding: temperature is a simulator option,
/// anything else a circuit parameter.
pub open spec fn environment_command_spec(name: Seq<char>, value: Seq<char>) -> Seq<char> {
    let l = lower_of(name);
    if l == "temp"@ || l == "temperature"@ {
        "set temp = "@ + value
    } else {
        "alterparam "@ + l + " = "@ + value
    }
}

/// The simulator command that applies the binding `name = value`.
pub fn environment_to_ngspice_command(name: &str, value: &str) -> (r: String)
    ensures
        r@ == environment_command_spec(name@, value@),
{
    let l = lowercase(name);
    let lc = chars_of(l.as_str());
    if same(lc.as_slice(), chars_of("temp").as_slice()) || same(lc.as_slice(), chars_of("temperature").as_slice()) {
        let mut r = chars_of("set temp = ");
        append(&mut r, chars_of(value).as_slice());
        string_of(r.as_slice())
    } else {
        let mut r = chars_of("alterparam ");
        append(&mut r, lc.as_slice());
        append(&mut r, chars_of(" = ").as_slice());
        append(&mut r, chars_of(value).as_slice());
        string_of(r.as_slice())
    }
}

/// A trimmed test line that is sent as a measurement command.
pub open spec fn is_measurement(t: Seq<char>) -> bool {
    &&& t.len() > 0
    &&& t[0] != '*'
    &&& t != ".control"@
    &&& t != ".endc"@
    &&& t != "run"@
    &&& directive_of(t) is None
}

/// The measurement commands of a program, trimmed, in order.
pub open spec fn measurements(ls: Seq<Seq<char>>) -> Seq<Seq<char>>
    decreases ls.len(),
{
    if ls.len() == 0 {
        Seq::empty()
    } else {
        measurements(ls.drop_last()) + if is_measurement(trim(ls.last())) {
            seq![trim(ls.last())]
        } else {
            Seq::empty()
        }
    }
}

pub open spec fn environment_commands(es: Seq<Environment>) -> Seq<Seq<char>> {
    Seq::new(es.len(), |i: int| environment_command_spec(es[i].name@, es[i].value@))
}

/// What a test sends to the simulator: its bindings, then its measurements.
pub open spec fn test_commands_spec(t: Test) -> Seq<Seq<char>> {
    environment_commands(t.environment@) + measurements(lines_of(t.spice_code@))
}

proof fn lemma_strs_push(v: Seq<String>, x: String)
    ensures
        strs(v.push(x)) == strs(v).push(x@),
{
    assert(strs(v.push(x)) =~= strs(v).push(x@));
}

/// The commands that run a test's measurements under its bindings.
pub fn test_commands(test: &Test) -> (r: Vec<String>)
    ensures
        strs(r@) == test_commands_spec(*test),
{
    let mut r: Vec<String> = Vec::new();
    let mut i: usize = 0;
    while i < test.environment.len()
        invariant
            i <= test.environment@.len(),
            strs(r@) == environment_commands(test.environment@).subrange(0, i as int),
        decreases test.environment@.len() - i,
    {
        let c = environment_to_ngspice_command(
            test.environment[i].name.as_str(),
            test.environment[i].value.as_str(),
        );
        proof {
            lemma_strs_push(r@, c);
        }
        r.push(c);
        assert(strs(r@) =~= environment_commands(test.environment@).subrange(0, i + 1));
        i = i + 1;
    }
    assert(environment_commands(test.environment@).subrange(0, i as int) =~= environment_commands(
        test.environment@,
    ));
    let ghost head = strs(r@);
    let code = chars_of(test.spice_code.as_str());
    let ls = lines(code.as_slice());
    let ghost sl = lines_of(code@);
    let control = chars_of(".control");
    let endc = chars_of(".endc");
    let run = chars_of("run");
    let mut k: usize = 0;
    while k < ls.len()
        invariant
            k <= ls@.len(),
            control@ == ".control"@,
            endc@ == ".endc"@,
            run@ == "run"@,
            sl == lines_of(test.spice_code@),
            ls@.len() == sl.len(),
            forall|t: int| 0 <= t < ls@.len() ==> (#[trigger] ls@[t])@ == sl[t],
            strs(r@) == head + measurements(sl.subrange(0, k as int)),
        decreases ls@.len() - k,
    {
        assert(sl.subrange(0, k + 1).drop_last() == sl.subrange(0, k as int));
        assert(sl.subrange(0, k + 1).last() == ls@[k as int]@);
        let t = trimmed(ls[k].as_slice());
        let keep = t.len() > 0 && t[0] != '*' && !same(t.as_slice(), control.as_slice()) && !same(
            t.as_slice(),
            endc.as_slice(),
        ) && !same(t.as_slice(), run.as_slice()) && crate::suite::directive_exec(t.as_slice()).is_none();
        if keep {
            let c = string_of(t.as_slice());
            proof {
                lemma_strs_push(r@, c);
            }
            r.push(c);
        }
        assert(strs(r@) =~= head + measurements(sl.subrange(0, k + 1)));
        k = k + 1;
    }
    assert(sl.subrange(0, k as int) == sl);
    r
}

/// The commands that set the parameters, then reset and rerun the simulation.
pub open spec fn parameter_commands_spec(names: Seq<Seq<char>>, values: Seq<Seq<char>>) -> Seq<
    Seq<char>,
> {
    Seq::new(names.len(), |i: int| "alterparam "@ + lower_of(names[i]) + " = "@ + values[i]) + seq![
        "reset"@,
        "run"@,
    ]
}

/// The commands that set each parameter `names[i]` to `values[i]`, then reset and run.
pub fn parameter_commands(names: &Vec<String>, values: &Vec<String>) -> (r: Vec<String>)
    requires
        names@.len() == values@.len(),
    ensures
        strs(r@) == parameter_commands_spec(strs(names@), strs(values@)),
{
    let ghost ns = strs(names@);
    let ghost vs = strs(values@);
    let ghost sets = Seq::new(ns.len(), |i: int| "alterparam "@ + lower_of(ns[i]) + " = "@ + vs[i]);
    let mut r: Vec<String> = Vec::new();
    let mut i: usize = 0;
    while i < names.len()
        invariant
            i <= names@.len() == values@.len(),
            ns == strs(names@),
            vs == strs(values@),
            sets == Seq::new(ns.len(), |i: int| "alterparam "@ + lower_of(ns[i]) + " = "@ + vs[i]),
            strs(r@) == sets.subrange(0, i as int),
        decreases names@.len() - i,
    {
        let mut c = chars_of("alterparam ");
        let l = lowercase(names[i].as_str());
        append(&mut c, chars_of(l.as_str()).as_slice());
        append(&mut c, chars_of(" = ").as_slice());
        append(&mut c, chars_of(values[i].as_str()).as_slice());
        let cs = string_of(c.as_slice());
        proof {
            lemma_strs_push(r@, cs);
        }
        r.push(cs);
        assert(strs(r@) =~= sets.subrange(0, i + 1));
        i = i + 1;
    }
    let reset = string_of(chars_of("reset").as_slice());
    proof {
        lemma_strs_push(r@, reset);
    }
    r.push(reset);
    let run = string_of(chars_of("run").as_slice());
    proof {
        lemma_strs_push(r@, run);
    }
    r.push(run);
    assert(strs(r@) =~= parameter_commands_spec(ns, vs));
    r
}

/// The value text a captured output line offers for `metric` (already lower-case):
/// the line holds `=`, the metric and `_val`, and a word follows the first `=`.
pub open spec fn reading(line: Seq<char>, metric: Seq<char>) -> Option<Seq<char>> {
    let t = trim(line);
    if contains(t, "="@) && contains(t, metric) && contains(t, "_val"@) {
        match crate::text::find_from(t, "="@, 0) {
            Some(e) => {
                let w = first_word(t.subrange(e + 1, t.len() as int));
                if w.len() > 0 {
                    Some(w)
                } else {
                    None
                }
            },
            None => None,
        }
    } else {
        None
    }
}

pub open spec fn readings(out: Seq<Seq<char>>, metric: Seq<char>) -> Seq<Seq<char>>
    decreases out.len(),
{
    if out.len() == 0 {
        Seq::empty()
    } else {
        readings(out.drop_last(), metric) + match reading(out.last(), metric) {
            Some(w) => seq![w],
            None => Seq::empty(),
        }
    }
}

/// The value texts that the captured output offers for `metric`, in output order;
/// the metric is matched in lower case. The last one that reads as a number is the
/// measurement.
pub fn metric_readings(output: &Vec<String>, metric: &str) -> (r: Vec<String>)
    ensures
        strs(r@) == readings(strs(output@), lower_of(metric@)),
{
    let ghost so = strs(output@);
    let m = chars_of(lowercase(metric).as_str());
    let eq = chars_of("=");
    let val = chars_of("_val");
    proof {
        reveal_strlit("=");
    }
    let mut r: Vec<String> = Vec::new();
    let mut k: usize = 0;
    while k < output.len()
        invariant
            k <= output@.len(),
            so == strs(output@),
            m@ == lower_of(metric@),
            eq@ == "="@,
            eq@.len() == 1,
            val@ == "_val"@,
            strs(r@) == readings(so.subrange(0, k as int), m@),
        decreases output@.len() - k,
    {
        assert(so.subrange(0, k + 1).drop_last() == so.subrange(0, k as int));
        assert(so.subrange(0, k + 1).last() == output@[k as int]@);
        let t = trimmed(chars_of(output[k].as_str()).as_slice());
        let tl = t.len();
        if has(t.as_slice(), eq.as_slice()) && has(t.as_slice(), m.as_slice()) && has(t.as_slice(), val.as_slice()) {
            match find(t.as_slice(), eq.as_slice(), 0) {
                Some(e) => {
                    proof {
                        crate::text::lemma_find_bound(t@, eq@, 0);
                    }
                    let after = copy_range(t.as_slice(), e + 1, tl);
                    let w = first_word_exec(after.as_slice());
                    if w.len() > 0 {
                        let ws = string_of(w.as_slice());
                        proof {
                            lemma_strs_push(r@, ws);
                        }
                        r.push(ws);
                    }
                },
                None => {},
            }
        }
        assert(strs(r@) =~= readings(so.subrange(0, k + 1), m@));
        k = k + 1;
    }
    assert(so.subrange(0, k as int) == so);
    r
}

} // verus!
