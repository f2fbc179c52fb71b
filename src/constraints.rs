use vstd::prelude::*;
use crate::expr::{
    char_vecs, compile_spec, position_exec, position_of, seqs, strs, CompileError,
    CompiledExpression,
};
use crate::graph::{find_cycle, graph_ok, has_cycle, is_cycle};
use crate::model::{ParameterConstraint, RelationshipType};
use crate::text::string_of;

verus! {

/// Edges `source -> target` for the sources of one constraint that name a parameter.
pub open spec fn source_edges(names: Seq<Seq<char>>, t: int, sources: Seq<Seq<char>>) -> Seq<
    (usize, usize),
>
    decreases sources.len(),
{
    if sources.len() == 0 {
        Seq::empty()
    } else {
        let r = source_edges(names, t, sources.drop_last());
        match position_of(names, sources.last()) {
            Some(s) => r.push((s as usize, t as usize)),
            None => r,
        }
    }
}

/// The dependency graph of `cs` over the parameters `names`: for each constraint whose
/// target is a parameter, an edge from each source parameter to the target.
pub open spec fn dependency_edges(names: Seq<Seq<char>>, cs: Seq<ParameterConstraint>) -> Seq<
    (usize, usize),
>
    decreases cs.len(),
{
    if cs.len() == 0 {
        Seq::empty()
    } else {
        dependency_edges(names, cs.drop_last()) + match position_of(names, cs.last().target_param@) {
            Some(t) => source_edges(names, t, strs(cs.last().source_params@)),
            None => Seq::empty(),
        }
    }
}

impl ParameterConstraint {
    /// The index of the target among `param_names`.
    pub fn find_target_index(&self, param_names: &Vec<String>) -> (r: Option<usize>)
        ensures
            r matches Some(i) ==> position_of(strs(param_names@), self.target_param@) == Some(i as int),
            r is None ==> position_of(strs(param_names@), self.target_param@) is None,
    {
        let names = char_vecs(param_names);
        position_exec(&names, &crate::text::chars_of(self.target_param.as_str()))
    }

    /// The indices among `param_names` of the sources that are parameters, in order.
    pub fn find_source_indices(&self, param_names: &Vec<String>) -> (r: Vec<usize>)
        ensures
            source_edges(strs(param_names@), 0, strs(self.source_params@)).len() == r@.len(),
            forall|k: int| 0 <= k < r@.len() ==> #[trigger] r@[k] == source_edges(
                strs(param_names@),
                0,
                strs(self.source_params@),
            )[k].0,
    {
        let names = char_vecs(param_names);
        let sources = char_vecs(&self.source_params);
        let ghost ns = strs(param_names@);
        let ghost ss = strs(self.source_params@);
        let mut r: Vec<usize> = Vec::new();
        let mut k: usize = 0;
        while k < sources.len()
            invariant
                k <= sources@.len(),
                seqs(names@) == ns,
                seqs(sources@) == ss,
                sources@.len() == ss.len(),
                r@.len() == source_edges(ns, 0, ss.subrange(0, k as int)).len(),
                forall|t: int| 0 <= t < r@.len() ==> #[trigger] r@[t] == source_edges(ns, 0, ss.subrange(0, k as int))[t].0,
            decreases sources@.len() - k,
        {
            assert(ss.subrange(0, k + 1).drop_last() == ss.subrange(0, k as int));
            assert(ss.subrange(0, k + 1).last() == sources@[k as int]@);
            match position_exec(&names, &sources[k]) {
                Some(s) => {
                    r.push(s);
                },
                None => {},
            }
            k = k + 1;
        }
        assert(ss.subrange(0, k as int) == ss);
        r
    }
}

/// A dependency cycle, named by one parameter on it.
#[derive(Clone, Debug)]
pub struct CycleError {
    pub parameter: String,
}

/// Why a set of constraints is refused.
#[derive(Clone, Debug)]
pub enum ValidationError {
    /// The dependency graph has a cycle through this parameter.
    Cycle(String),
    /// A constraint names a source that is not a parameter.
    MissingSource(String),
    /// The expression of the constraint on this target does not compile.
    Compile(String, CompileError),
}

/// The edges of the dependency graph of `constraints` over `param_names`.
#[verifier::spinoff_prover]
#[verifier::rlimit(50)]
pub fn dependency_graph(constraints: &Vec<ParameterConstraint>, param_names: &Vec<String>) -> (r:
    Vec<(usize, usize)>)
    ensures
        r@ == dependency_edges(strs(param_names@), constraints@),
        graph_ok(param_names@.len() as int, r@),
{
    let names = char_vecs(param_names);
    let ghost ns = strs(param_names@);
    let mut es: Vec<(usize, usize)> = Vec::new();
    let mut c: usize = 0;
    while c < constraints.len()
        invariant
            c <= constraints@.len(),
            seqs(names@) == ns,
            names@.len() == param_names@.len(),
            ns == strs(param_names@),
            es@ == dependency_edges(ns, constraints@.subrange(0, c as int)),
            graph_ok(names@.len() as int, es@),
        decreases constraints@.len() - c,
    {
        let ghost prefix = constraints@.subrange(0, c + 1);
        assert(prefix.drop_last() == constraints@.subrange(0, c as int));
        let con = &constraints[c];
        let target = crate::text::chars_of(con.target_param.as_str());
        match position_exec(&names, &target) {
            None => {
                assert(es@ =~= dependency_edges(ns, prefix));
            },
            Some(t) => {
                let sources = char_vecs(&con.source_params);
                let ghost base = es@;
                let mut k: usize = 0;
                while k < sources.len()
                    invariant
                        k <= sources@.len(),
                        t < names@.len(),
                        seqs(names@) == ns,
                        seqs(sources@) == strs(con.source_params@),
                        sources@.len() == con.source_params@.len(),
                        es@ == base + source_edges(ns, t as int, seqs(sources@).subrange(0, k as int)),
                        graph_ok(names@.len() as int, es@),
                    decreases sources@.len() - k,
                {
                    assert(seqs(sources@).subrange(0, k + 1).drop_last() == seqs(sources@).subrange(
                        0,
                        k as int,
                    ));
                    assert(seqs(sources@).subrange(0, k + 1).last() == sources@[k as int]@);
                    match position_exec(&names, &sources[k]) {
                        Some(s) => {
                            es.push((s, t));
                        },
                        None => {},
                    }
                    k = k + 1;
                }
                assert(seqs(sources@).subrange(0, k as int) == strs(con.source_params@));
                assert(es@ =~= dependency_edges(ns, prefix));
            },
        }
        c = c + 1;
    }
    assert(constraints@.subrange(0, c as int) == constraints@);
    es
}

/// Fails, naming a parameter on the cycle, exactly when the dependency graph of
/// `constraints` over `param_names` has a cycle.
pub fn detect_cycles(constraints: &Vec<ParameterConstraint>, param_names: &Vec<String>) -> (r:
    Result<(), CycleError>)
    ensures
        r is Ok <==> !has_cycle(dependency_edges(strs(param_names@), constraints@)),
        r matches Err(e) ==> exists|w: Seq<usize>|
            is_cycle(dependency_edges(strs(param_names@), constraints@), w) && e.parameter@
                == param_names@[w[0] as int]@,
{
    let es = dependency_graph(constraints, param_names);
    match find_cycle(param_names.len(), &es) {
        None => Ok(()),
        Some(w) => {
            proof {
                assert(is_cycle(es@, w@));
            }
            let v = w[0];
            assert(exists|j: int| 0 <= j < es@.len() && (#[trigger] es@[j]).0 == w@.last() && es@[j].1 == w@[0]);
            let ghost j = choose|j: int| 0 <= j < es@.len() && (#[trigger] es@[j]).0 == w@.last() && es@[j].1 == w@[0];
            Err(CycleError { parameter: param_names[v].clone() })
        },
    }
}


/// A constraint compiles: it already holds its compiled form, or every source is a
/// parameter and its expression compiles over the sources.
pub open spec fn compiles(names: Seq<Seq<char>>, c: ParameterConstraint) -> bool {
    c.compiled is Some || ((forall|k: int|
        0 <= k < c.source_params@.len() ==> position_of(names, #[trigger] c.source_params@[k]@) is Some)
        && compile_spec(strs(c.source_params@), c.expression@) is Ok)
}

/// `b` is `a` with, at most, its compiled form filled in.
pub open spec fn same_but_compiled(a: ParameterConstraint, b: ParameterConstraint) -> bool {
    &&& a.relationship == b.relationship
    &&& a.description == b.description
    &&& a.expression == b.expression
    &&& a.target_param == b.target_param
    &&& a.source_params == b.source_params
}

/// `b` is the validated form of `a`.
pub open spec fn validated(a: ParameterConstraint, b: ParameterConstraint) -> bool {
    &&& same_but_compiled(a, b)
    &&& b.compiled is Some
    &&& a.compiled is Some ==> b.compiled == a.compiled
    &&& a.compiled is None ==> b.compiled->0.arity() == a.source_params@.len()
    &&& a.compiled is None ==> compile_spec(strs(a.source_params@), a.expression@) == Ok::<
        crate::expr::Code,
        CompileError,
    >((b.compiled->0.ops(), b.compiled->0.pool()))
}

/// Fills in the compiled form of a constraint that lacks one.
fn compile_one(c: &mut ParameterConstraint, names: &Vec<Vec<char>>) -> (r: Result<(), ValidationError>)
    ensures
        r is Ok <==> compiles(seqs(names@), *old(c)),
        r is Ok ==> validated(*old(c), *final(c)),
        !(r matches Err(ValidationError::Cycle(_))),
        r matches Err(ValidationError::MissingSource(p)) ==> exists|k: int|
            0 <= k < old(c).source_params@.len() && old(c).source_params@[k] == p && position_of(
                seqs(names@),
                p@,
            ) is None,
        r matches Err(ValidationError::Compile(t, err)) ==> t == old(c).target_param && compile_spec(
            strs(old(c).source_params@),
            old(c).expression@,
        ) == Err::<crate::expr::Code, CompileError>(err),
{
    if c.compiled.is_some() {
        return Ok(());
    }
    assert(c.compiled is None);
    let mut k: usize = 0;
    while k < c.source_params.len()
        invariant
            k <= c.source_params@.len(),
            *c == *old(c),
            c.compiled is None,
            forall|j: int|
                0 <= j < k ==> position_of(seqs(names@), #[trigger] c.source_params@[j]@) is Some,
        decreases c.source_params@.len() - k,
    {
        let s = crate::text::chars_of(c.source_params[k].as_str());
        if position_exec(names, &s).is_none() {
            assert(s@ == c.source_params@[k as int]@);
            assert(position_of(seqs(names@), c.source_params@[k as int]@) is None);
            assert(old(c).compiled is None);
            assert(!compiles(seqs(names@), *old(c)));
            let p = c.source_params[k].clone();
            assert(c.source_params@[k as int] == p);
            return Err(ValidationError::MissingSource(p));
        }
        k = k + 1;
    }
    match CompiledExpression::new(c.expression.as_str(), &c.source_params) {
        Ok(e) => {
            c.compiled = Some(e);
            Ok(())
        },
        Err(err) => Err(ValidationError::Compile(c.target_param.clone(), err)),
    }
}

/// Checks the dependency graph for cycles, then compiles every constraint over its
/// sources, in order.
pub fn validate_constraints(constraints: &mut Vec<ParameterConstraint>, param_names: &Vec<String>) -> (r:
    Result<(), ValidationError>)
    ensures
        r is Ok <==> !has_cycle(dependency_edges(strs(param_names@), old(constraints)@)) && forall|i: int|
            0 <= i < old(constraints)@.len() ==> compiles(strs(param_names@), #[trigger] old(constraints)@[i]),
        r matches Err(ValidationError::Cycle(_)) <==> has_cycle(
            dependency_edges(strs(param_names@), old(constraints)@),
        ),
        r matches Err(ValidationError::Cycle(p)) ==> exists|w: Seq<usize>|
            is_cycle(dependency_edges(strs(param_names@), old(constraints)@), w) && p@
                == param_names@[w[0] as int]@,
        r matches Err(ValidationError::MissingSource(p)) ==> exists|i: int, k: int|
            0 <= i < old(constraints)@.len() && 0 <= k < old(constraints)@[i].source_params@.len()
                && old(constraints)@[i].source_params@[k] == p && position_of(strs(param_names@), p@)
                is None,
        r matches Err(ValidationError::Compile(t, err)) ==> exists|i: int|
            0 <= i < old(constraints)@.len() && old(constraints)@[i].target_param == t && compile_spec(
                strs(old(constraints)@[i].source_params@),
                old(constraints)@[i].expression@,
            ) == Err::<crate::expr::Code, CompileError>(err),
        r is Ok ==> final(constraints)@.len() == old(constraints)@.len() && forall|i: int|
            0 <= i < old(constraints)@.len() ==> validated(
                #[trigger] old(constraints)@[i],
                final(constraints)@[i],
            ),
{
    match detect_cycles(constraints, param_names) {
        Err(e) => {
            return Err(ValidationError::Cycle(e.parameter));
        },
        Ok(_) => {},
    }
    let names = char_vecs(param_names);
    let ghost orig = constraints@;
    let mut i: usize = 0;
    while i < constraints.len()
        invariant
            i <= constraints@.len(),
            constraints@.len() == orig.len(),
            orig == old(constraints)@,
            !has_cycle(dependency_edges(strs(param_names@), orig)),
            seqs(names@) == strs(param_names@),
            forall|j: int| i <= j < orig.len() ==> constraints@[j] == orig[j],
            forall|j: int| 0 <= j < i ==> compiles(strs(param_names@), #[trigger] orig[j]),
            forall|j: int| 0 <= j < i ==> validated(#[trigger] orig[j], constraints@[j]),
        decreases orig.len() - i,
    {
        let mut c = constraints.remove(i);
        let r = compile_one(&mut c, &names);
        constraints.insert(i, c);
        if let Err(e) = r {
            assert(!compiles(strs(param_names@), orig[i as int]));
            match e {
                ValidationError::MissingSource(p) => {
                    let ghost k = choose|k: int|
                        0 <= k < orig[i as int].source_params@.len() && orig[i as int].source_params@[k] == p
                            && position_of(seqs(names@), p@) is None;
                    assert(0 <= i < old(constraints)@.len() && 0 <= k < old(constraints)@[i as int].source_params@.len()
                        && old(constraints)@[i as int].source_params@[k] == p);
                    return Err(ValidationError::MissingSource(p));
                },
                _ => {
                    return Err(e);
                },
            }
        }
        i = i + 1;
    }
    Ok(())
}


/// A constraint with its parameters resolved to indices.
#[derive(Debug)]
pub struct ConstraintRecord {
    pub target_idx: usize,
    pub source_indices: Vec<usize>,
    pub relationship: RelationshipType,
    pub compiled: Option<CompiledExpression>,
}

/// Every name a constraint uses is a parameter.
pub open spec fn resolvable(names: Seq<Seq<char>>, c: ParameterConstraint) -> bool {
    position_of(names, c.target_param@) is Some && source_edges(names, 0, strs(c.source_params@)).len()
        == c.source_params@.len()
}

/// `r` is constraint `c` over the parameters `names`.
pub open spec fn resolved(names: Seq<Seq<char>>, c: ParameterConstraint, r: ConstraintRecord) -> bool {
    &&& position_of(names, c.target_param@) == Some(r.target_idx as int)
    &&& r.source_indices@.len() == c.source_params@.len()
    &&& forall|k: int|
        0 <= k < r.source_indices@.len() ==> #[trigger] r.source_indices@[k] == source_edges(
            names,
            0,
            strs(c.source_params@),
        )[k].0
    &&& r.relationship == c.relationship
    &&& r.compiled == c.compiled
}

/// Resolves each constraint's target and sources to parameter indices, keeping its
/// relationship and compiled form. Fails on the first name that is not a parameter.
pub fn build_constraints(param_names: &Vec<String>, constraints: Vec<ParameterConstraint>) -> (r:
    Result<Vec<ConstraintRecord>, String>)
    ensures
        r is Ok <==> forall|i: int|
            0 <= i < constraints@.len() ==> resolvable(strs(param_names@), #[trigger] constraints@[i]),
        r matches Ok(v) ==> v@.len() == constraints@.len() && forall|i: int|
            0 <= i < v@.len() ==> resolved(strs(param_names@), constraints@[i], #[trigger] v@[i]),
{
    let ghost orig = constraints@;
    let ghost ns = strs(param_names@);
    assert(orig == constraints@);
    let n = constraints.len();
    let mut rest = constraints;
    let mut out: Vec<ConstraintRecord> = Vec::new();
    let mut i: usize = 0;
    while rest.len() > 0
        invariant
            rest@ == orig.subrange(i as int, orig.len() as int),
            orig == constraints@,
            n == orig.len(),
            i <= orig.len(),
            out@.len() == i,
            ns == strs(param_names@),
            forall|t: int| 0 <= t < i ==> resolvable(ns, #[trigger] orig[t]),
            forall|t: int| 0 <= t < i ==> resolved(ns, orig[t], #[trigger] out@[t]),
        decreases rest@.len(),
    {
        let c = rest.remove(0);
        assert(c == orig[i as int]);
        let t = match c.find_target_index(param_names) {
            Some(t) => t,
            None => {
                let mut m = crate::text::chars_of("Target param '");
                crate::text::append(&mut m, crate::text::chars_of(c.target_param.as_str()).as_slice());
                crate::text::append(&mut m, crate::text::chars_of("' not found").as_slice());
                assert(!resolvable(ns, orig[i as int]));
                assert(!(forall|j: int| 0 <= j < orig.len() ==> resolvable(ns, #[trigger] orig[j])));
                return Err(string_of(m.as_slice()));
            },
        };
        let sources = c.find_source_indices(param_names);
        if sources.len() != c.source_params.len() {
            assert(!resolvable(ns, orig[i as int]));
            assert(!(forall|j: int| 0 <= j < orig.len() ==> resolvable(ns, #[trigger] orig[j])));
            return Err(string_of(crate::text::chars_of("Source parameter not found").as_slice()));
        }
        out.push(
            ConstraintRecord {
                target_idx: t,
                source_indices: sources,
                relationship: c.relationship,
                compiled: c.compiled,
            },
        );
        i = i + 1;
        assert(rest@ =~= orig.subrange(i as int, orig.len() as int));
    }
    assert(i == orig.len());
    Ok(out)
}

} // verus!
