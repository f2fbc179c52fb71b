use uwasic_optimizer::constraints::{
    build_constraints, detect_cycles, validate_constraints, ValidationError,
};
use uwasic_optimizer::expr::{CompileError, CompiledExpression, EvalError, OpCode, Scalar};
use uwasic_optimizer::model::{
    Correction, Environment, ParameterConstraint, RelationshipType, Standing, TargetMode, Test,
};
use uwasic_optimizer::netlist::{
    add_analysis_directives, netlist_lines, parameterize_component_line, parameterize_netlist,
};
use uwasic_optimizer::session::{
    environment_to_ngspice_command, metric_readings, parameter_commands, test_commands,
};
use uwasic_optimizer::solver::{
    iteration_end, select_solver, IterationCounter, Outcome, SolverChoice, Streak,
};
use uwasic_optimizer::suite::{
    merge_tests_by_environment, process_test_environments, test_without_directive,
};
use uwasic_optimizer::xschem::{FileType, XSchemNetlist};

#[derive(Clone, Copy, Debug, PartialEq)]
struct Num(f64);

impl Scalar for Num {
    fn op_spec(op: OpCode, a: Self, b: Self) -> Self {
        match op {
            OpCode::Add => Num(a.0 + b.0),
            OpCode::Sub => Num(a.0 - b.0),
            OpCode::Mul => Num(a.0 * b.0),
            OpCode::Div => Num(a.0 / b.0),
            _ => Num(a.0.powf(b.0)),
        }
    }
    fn zero_spec(a: Self) -> bool {
        a.0 == 0.0
    }
    fn plus(self, o: Self) -> Self {
        Num(self.0 + o.0)
    }
    fn minus(self, o: Self) -> Self {
        Num(self.0 - o.0)
    }
    fn times(self, o: Self) -> Self {
        Num(self.0 * o.0)
    }
    fn divide(self, o: Self) -> Self {
        Num(self.0 / o.0)
    }
    fn power(self, o: Self) -> Self {
        Num(self.0.powf(o.0))
    }
    fn is_zero(self) -> bool {
        self.0 == 0.0
    }
}

fn names(v: &[&str]) -> Vec<String> {
    v.iter().map(|s| s.to_string()).collect()
}

fn constants(e: &CompiledExpression) -> Vec<Num> {
    (0..e.constant_count())
        .map(|k| Num(e.constant_text(k).parse::<f64>().unwrap()))
        .collect()
}

fn eval(expr: &str, params: &[&str], values: &[f64]) -> Result<f64, EvalError> {
    let e = CompiledExpression::new(expr, &names(params)).unwrap();
    let p: Vec<Num> = values.iter().map(|&v| Num(v)).collect();
    e.evaluate(&p, &constants(&e)).map(|n| n.0)
}

fn env(name: &str, value: &str) -> Environment {
    Environment::new(name.to_string(), value.to_string())
}

fn test(name: &str, envs: Vec<Environment>, code: &str) -> Test {
    Test::new(name.to_string(), envs, code.to_string(), String::new())
}

fn constraint(target: &str, sources: &[&str], expr: &str, rel: RelationshipType) -> ParameterConstraint {
    ParameterConstraint::new(target.to_string(), names(sources), expr.to_string(), rel, String::new())
}

#[test]
fn expression_round_trip() {
    assert_eq!(eval("(a+b)*c - 2^3", &["a", "b", "c"], &[1.0, 2.0, 4.0]), Ok(4.0));
}

#[test]
fn division_by_zero() {
    assert_eq!(eval("a/0", &["a"], &[1.0]), Err(EvalError::DivByZero));
}

#[test]
fn operators_bind_by_precedence() {
    assert_eq!(eval("1+2*3", &[], &[]), Ok(7.0));
    assert_eq!(eval("8-2-1", &[], &[]), Ok(5.0));
    assert_eq!(eval("2*3^2", &[], &[]), Ok(18.0));
    assert_eq!(eval("x / y", &["x", "y"], &[6.0, 3.0]), Ok(2.0));
    assert_eq!(eval(" 1.5e2 ", &[], &[]), Ok(150.0));
}

#[test]
fn literal_expression_folds() {
    assert_eq!(eval("(2+3)*4", &[], &[]), Ok(20.0));
}

#[test]
fn wrong_parameter_count() {
    let e = CompiledExpression::new("a+b", &names(&["a", "b"])).unwrap();
    assert_eq!(e.param_count(), 2);
    assert_eq!(e.evaluate(&[Num(1.0)], &constants(&e)), Err(EvalError::ParamCountMismatch));
}

#[test]
fn missing_constants_are_malformed() {
    let e = CompiledExpression::new("a+1", &names(&["a"])).unwrap();
    assert_eq!(e.evaluate(&[Num(1.0)], &[]), Err(EvalError::Malformed));
}

#[test]
fn equal_literals_share_a_slot() {
    let e = CompiledExpression::new("2*x+2", &names(&["x"])).unwrap();
    assert_eq!(e.constant_count(), 1);
    assert_eq!(e.constant_text(0), "2");
    assert_eq!(e.instruction_count(), 5);
    let e = CompiledExpression::new("1.0+1+10e-1*0.1e1+01.000", &vec![]);
    assert_eq!(e.unwrap_err(), CompileError::UnknownIdentifier);
    let e = CompiledExpression::new("1.0+1+10E0/10+0.1e1*01.000", &vec![]).unwrap();
    assert_eq!(e.constant_count(), 2);
    assert_eq!(e.constant_text(0), "1.0");
    assert_eq!(e.constant_text(1), "10E0");
    let e = CompiledExpression::new("0+0.0*0e5+2.50-2.5", &vec![]).unwrap();
    assert_eq!(e.constant_count(), 2);
    assert_eq!(eval("1.0+1+10E0/10+0.1e1*01.000", &[], &[]), Ok(4.0));
}

#[test]
fn compile_errors() {
    let p = names(&["a", "b_1"]);
    assert_eq!(CompiledExpression::new("", &p).unwrap_err(), CompileError::Empty);
    assert_eq!(CompiledExpression::new("  \t", &p).unwrap_err(), CompileError::Blank);
    assert_eq!(CompiledExpression::new("a+", &p).unwrap_err(), CompileError::EmptySubexpression);
    assert_eq!(CompiledExpression::new("-a", &p).unwrap_err(), CompileError::EmptySubexpression);
    assert_eq!(CompiledExpression::new("(a", &p).unwrap_err(), CompileError::UnmatchedParenthesis);
    assert_eq!(CompiledExpression::new("(a))+(b_1", &p).unwrap_err(), CompileError::UnmatchedParenthesis);
    assert_eq!(CompiledExpression::new("(a)+b_1)", &p).unwrap_err(), CompileError::UnbalancedParentheses);
    assert_eq!(CompiledExpression::new("a$", &p).unwrap_err(), CompileError::InvalidCharacters);
    assert_eq!(CompiledExpression::new("Inf*a", &p).unwrap_err(), CompileError::NonFinite);
    assert_eq!(CompiledExpression::new("nan", &p).unwrap_err(), CompileError::NonFinite);
    assert_eq!(CompiledExpression::new("c", &p).unwrap_err(), CompileError::UnknownIdentifier);
    assert_eq!(CompiledExpression::new("2^3^4", &p).unwrap_err(), CompileError::InvalidCharacters);
    assert!(CompiledExpression::new("b_1*2", &p).is_ok());
}

#[test]
fn stack_depth_is_bounded() {
    let mut deep = String::from("a");
    for _ in 0..31 {
        deep = format!("a+({})", deep);
    }
    assert!(CompiledExpression::new(&deep, &names(&["a"])).is_ok());
    let deeper = format!("a+({})", deep);
    assert_eq!(
        CompiledExpression::new(&deeper, &names(&["a"])).unwrap_err(),
        CompileError::TooDeep
    );
}

#[test]
fn cycle_detection() {
    let params = names(&["x", "y"]);
    let cs = vec![
        constraint("x", &["y"], "y+1", RelationshipType::Equals),
        constraint("y", &["x"], "x-1", RelationshipType::Equals),
    ];
    let err = detect_cycles(&cs, &params).unwrap_err();
    assert!(err.parameter == "x" || err.parameter == "y");
    let mut cs2 = cs.clone();
    match validate_constraints(&mut cs2, &params) {
        Err(ValidationError::Cycle(p)) => assert!(p == "x" || p == "y"),
        other => panic!("expected a cycle, got {:?}", other),
    }
}

#[test]
fn acyclic_constraints_compile() {
    let params = names(&["a", "b", "c"]);
    let mut cs = vec![
        constraint("b", &["a"], "2*a", RelationshipType::GreaterThanOrEqual),
        constraint("c", &["a", "b"], "a+b", RelationshipType::LessThan),
    ];
    assert!(detect_cycles(&cs, &params).is_ok());
    assert!(validate_constraints(&mut cs, &params).is_ok());
    assert!(cs.iter().all(|c| c.get_compiled().is_some()));
    assert_eq!(cs[1].get_compiled().unwrap().param_count(), 2);
    assert_eq!(cs[1].find_target_index(&params), Some(2));
    assert_eq!(cs[1].find_source_indices(&params), vec![0, 1]);
}

#[test]
fn self_dependency_is_a_cycle() {
    let params = names(&["w"]);
    let cs = vec![constraint("w", &["w"], "w", RelationshipType::Equals)];
    assert_eq!(detect_cycles(&cs, &params).unwrap_err().parameter, "w");
}

#[test]
fn validation_reports_missing_source_and_bad_expression() {
    let params = names(&["a", "b"]);
    let mut cs = vec![constraint("b", &["z"], "z", RelationshipType::Equals)];
    match validate_constraints(&mut cs, &params) {
        Err(ValidationError::MissingSource(s)) => assert_eq!(s, "z"),
        other => panic!("unexpected {:?}", other),
    }
    let mut cs = vec![constraint("b", &["a"], "a+q", RelationshipType::Equals)];
    match validate_constraints(&mut cs, &params) {
        Err(ValidationError::Compile(t, e)) => {
            assert_eq!(t, "b");
            assert_eq!(e, CompileError::UnknownIdentifier);
        }
        other => panic!("unexpected {:?}", other),
    }
}

#[test]
fn corrections_follow_the_relation() {
    assert_eq!(RelationshipType::Equals.correction(Standing::Equal), Correction::Replace);
    assert_eq!(RelationshipType::GreaterThanOrEqual.correction(Standing::Below), Correction::Replace);
    assert_eq!(RelationshipType::GreaterThanOrEqual.correction(Standing::Equal), Correction::Keep);
    assert_eq!(RelationshipType::LessThanOrEqual.correction(Standing::Above), Correction::Replace);
    assert_eq!(RelationshipType::GreaterThan.correction(Standing::Equal), Correction::ReplaceAbove);
    assert_eq!(RelationshipType::GreaterThan.correction(Standing::Above), Correction::Keep);
    assert_eq!(RelationshipType::LessThan.correction(Standing::Equal), Correction::ReplaceBelow);
    assert_eq!(RelationshipType::LessThan.correction(Standing::Below), Correction::Keep);
}

#[test]
fn merge_of_tests() {
    let a = test("gain", vec![env("TEMP", "27")], ".ac dec 10 1 1e6\nmeas ac gain_val max vdb(out)\n");
    let b = test("bw", vec![env("TEMP", "27")], "* bandwidth\n.ac dec 10 1 1e6\nmeas ac bw_val when vdb(out)=0\nrun\n");
    let c = test("dc", vec![env("TEMP", "27")], ".op\nprint v(out)\n");
    let merged = merge_tests_by_environment(&vec![a, b, c]);
    assert_eq!(merged.len(), 2);
    assert_eq!(merged[0].name, "gain+bw");
    assert_eq!(
        merged[0].spice_code,
        ".ac dec 10 1 1e6\nmeas ac gain_val max vdb(out)\nmeas ac bw_val when vdb(out)=0\n"
    );
    assert_eq!(merged[0].description, "Merged from: gain, bw");
    assert_eq!(merged[0].environment.len(), 1);
    assert_eq!(merged[1].name, "dc");
    assert_eq!(merged[1].spice_code, ".op\nprint v(out)\n");
}

#[test]
fn merge_ignores_binding_order_and_fills_placeholders() {
    let a = test("t1", vec![env("TEMP", "85"), env("VDD", "1.8")], ".tran 1n 1u\nmeas tran d_val trig v(in) val={VDD}\n");
    let b = test("t2", vec![env("VDD", "1.8"), env("TEMP", "85")], ".tran 1n 1u\nmeas tran r_val at={TEMP}\n");
    let c = test("t3", vec![env("VDD", "1.2")], ".tran 1n 1u\nmeas tran r_val at={VDD}\n");
    let merged = merge_tests_by_environment(&vec![a, b, c]);
    assert_eq!(merged.len(), 2);
    assert_eq!(
        merged[0].spice_code,
        ".tran 1n 1u\nmeas tran d_val trig v(in) val=1.8\nmeas tran r_val at=85\n"
    );
    assert_eq!(merged[1].spice_code, ".tran 1n 1u\nmeas tran r_val at=1.2\n");
}

#[test]
fn netlist_is_parameterized() {
    let lines = names(&[
        "* amplifier",
        ".param old = 1",
        "M1 d g s b nfet W=1u L=0.15u",
        "XR1 a b res L=2u",
        "R2 a b 1k",
    ]);
    let out = parameterize_netlist(&lines, &names(&["M1_L", "M1_W"]), &names(&["1.5e-7", "1e-6"]));
    assert_eq!(
        out,
        names(&[
            "* amplifier",
            "",
            "* === Optimization Parameters (Auto-generated) ===",
            ".param M1_L = 1.5e-7",
            ".param M1_W = 1e-6",
            "* === End Parameters ===",
            "",
            "M1 d g s b nfet W={M1_W} L={M1_L}",
            "XR1 a b res L=2u",
            "R2 a b 1k",
            ".end",
        ])
    );
}

#[test]
fn netlist_without_title_keeps_its_end() {
    let lines = names(&[".include models", "M2 d g s b pfet L=1u", ".end"]);
    let out = parameterize_netlist(&lines, &names(&["M2_L"]), &names(&["2e-6"]));
    assert_eq!(out[0], "");
    assert_eq!(out[5], ".include models");
    assert_eq!(out[6], "M2 d g s b pfet L={M2_L}");
    assert_eq!(out[7], ".end");
    assert_eq!(out.len(), 8);
}

#[test]
fn component_line_rewrite() {
    let params = vec![("W".to_string(), "X1_W".to_string()), ("nf".to_string(), "X1_nf".to_string())];
    assert_eq!(
        parameterize_component_line("X1 a b cell W=2u nf=4 m=1", &params),
        "X1 a b cell W={X1_W} nf={X1_nf} m=1"
    );
}

#[test]
fn environment_commands() {
    assert_eq!(environment_to_ngspice_command("TEMP", "27"), "set temp = 27");
    assert_eq!(environment_to_ngspice_command("Temperature", "-40"), "set temp = -40");
    assert_eq!(environment_to_ngspice_command("VDD", "1.8"), "alterparam vdd = 1.8");
}

#[test]
fn test_commands_skip_directives() {
    let t = test(
        "gain",
        vec![env("TEMP", "27")],
        ".control\n* note\n.ac dec 10 1 1e6\nrun\n  meas ac gain_val max vdb(out)  \n.endc\n",
    );
    assert_eq!(test_commands(&t), names(&["set temp = 27", "meas ac gain_val max vdb(out)"]));
}

#[test]
fn parameter_updates() {
    assert_eq!(
        parameter_commands(&names(&["M1_W", "Rb"]), &names(&["1e-6", "2000"])),
        names(&["alterparam m1_w = 1e-6", "alterparam rb = 2000", "reset", "run"])
    );
}

#[test]
fn metric_lines_are_read() {
    let out = names(&[
        "stdout dc_gain_val = -4.420978e+01 at= 1.000000e+00",
        "other = 3",
        "  DC_GAIN_val = 12",
        "dc_gain_val =",
    ]);
    assert_eq!(metric_readings(&out, "DC_Gain"), names(&["-4.420978e+01"]));
    assert_eq!(metric_readings(&out, "other"), Vec::<String>::new());
}

#[test]
fn solver_selection() {
    assert_eq!(select_solver(2, true, false), SolverChoice::Newton);
    assert_eq!(select_solver(2, false, false), SolverChoice::Pso { population: 16 });
    assert_eq!(select_solver(8, false, true), SolverChoice::Pso { population: 30 });
    assert_eq!(select_solver(3, true, false), SolverChoice::Pso { population: 19 });
    assert_eq!(select_solver(9, false, false), SolverChoice::CmaEs);
}

#[test]
fn iteration_outcomes() {
    assert_eq!(iteration_end(true, true, true), Some(Outcome::StoppedByCallback));
    assert_eq!(iteration_end(false, true, true), Some(Outcome::Converged));
    assert_eq!(iteration_end(false, false, true), Some(Outcome::Stagnated));
    assert_eq!(iteration_end(false, false, false), None);
    assert_eq!(Outcome::StoppedByCallback.message(), "Stopped by callback");
    assert_eq!(Outcome::MaxIterations.message(), "Max iterations reached");
    assert!(Outcome::Converged.success());
    assert!(!Outcome::Stagnated.success());
}

#[test]
fn streaks_and_counters() {
    let mut s = Streak::stagnation();
    for _ in 0..4 {
        assert!(!s.record(true));
    }
    assert!(s.record(true));
    assert!(!s.record(false));
    assert_eq!(s.length, 0);
    let mut c = IterationCounter::new(3);
    c.on_iteration(2);
    assert!(!c.should_stop());
    c.on_iteration(3);
    assert!(c.should_stop());
}

#[test]
fn file_types() {
    assert!(matches!(XSchemNetlist::detect_file_type("lib/amp_tb.sch"), FileType::Testbench));
    assert!(matches!(XSchemNetlist::detect_file_type("amp.sch"), FileType::Schematic));
    assert!(matches!(XSchemNetlist::detect_file_type("/x/amp.sym"), FileType::Symbol));
    assert!(matches!(XSchemNetlist::detect_file_type("amp.spice"), FileType::Invalid));
    assert!(matches!(XSchemNetlist::detect_file_type("/"), FileType::Invalid));
    assert!(matches!(XSchemNetlist::detect_file_type("lib/amp.sch/"), FileType::Schematic));
    assert!(matches!(XSchemNetlist::detect_file_type("amp_tb.sch/x.txt"), FileType::Invalid));
    let x = XSchemNetlist::new("lib/amp.sch".to_string()).unwrap();
    assert_eq!(x.file_path(), "lib/amp.sch");
    assert_eq!(XSchemNetlist::new("amp.txt".to_string()).unwrap_err(), "Invalid file type: amp.txt");
}

#[test]
fn constraint_records() {
    let params = names(&["a", "b", "c"]);
    let cs = vec![
        constraint("c", &["b", "a"], "a+b", RelationshipType::GreaterThan),
        constraint("b", &["a"], "a", RelationshipType::Equals),
    ];
    let recs = build_constraints(&params, cs).unwrap();
    assert_eq!(recs.len(), 2);
    assert_eq!(recs[0].target_idx, 2);
    assert_eq!(recs[0].source_indices, vec![1, 0]);
    assert_eq!(recs[0].relationship, RelationshipType::GreaterThan);
    assert_eq!(recs[1].target_idx, 1);
    let bad = vec![constraint("d", &["a"], "a", RelationshipType::Equals)];
    assert_eq!(build_constraints(&params, bad).unwrap_err(), "Target param 'd' not found");
    let bad = vec![constraint("a", &["q"], "q", RelationshipType::Equals)];
    assert_eq!(build_constraints(&params, bad).unwrap_err(), "Source parameter not found");
}

#[test]
fn placeholders_are_filled() {
    let t = test("t", vec![env("VDD", "1.8"), env("TEMP", "27")], "alter v1 {VDD}\nset t={TEMP} {VDD}\n");
    let out = process_test_environments(&vec![t]);
    assert_eq!(out[0].spice_code, "alter v1 1.8\nset t=27 1.8\n");
    assert_eq!(out[0].name, "t");
    assert_eq!(out[0].environment.len(), 2);
}

#[test]
fn netlist_file_lines() {
    assert_eq!(netlist_lines("* title\r\n\n  M1 a b c d  \n.end"), names(&["* title", "M1 a b c d", ".end"]));
}

#[test]
fn directives_go_before_end() {
    let mut n = names(&["* t", "R1 a b 1k", " .end ", "* tail"]);
    let tests = vec![
        test("a", vec![], "  .ac dec 10 1 1e6\nmeas ac g_val max v(out)\n"),
        test("b", vec![], ".op\n.tran 1n 1u\n"),
    ];
    add_analysis_directives(&mut n, &tests);
    assert_eq!(n, names(&["* t", "R1 a b 1k", "* tail", ".ac dec 10 1 1e6", ".op", ".tran 1n 1u", ".end"]));
}

#[test]
fn names_of_modes_and_relations() {
    assert_eq!(TargetMode::Max.repr(), "TargetMode.Max");
    assert_eq!(RelationshipType::LessThanOrEqual.repr(), "RelationshipType.LessThanOrEqual");
}

#[test]
fn empty_inputs() {
    assert!(merge_tests_by_environment(&vec![]).is_empty());
    assert!(detect_cycles(&vec![], &names(&["a"])).is_ok());
    let out = parameterize_netlist(&vec![], &vec![], &vec![]);
    assert_eq!(
        out,
        names(&[
            "",
            "* === Optimization Parameters (Auto-generated) ===",
            "* === End Parameters ===",
            "",
            ".end",
        ])
    );
    assert_eq!(parameter_commands(&vec![], &vec![]), names(&["reset", "run"]));
    assert!(netlist_lines("").is_empty());
}

#[test]
fn chained_dependencies_are_acyclic() {
    let params = names(&["a", "b", "c", "d"]);
    let cs = vec![
        constraint("b", &["a"], "a*2", RelationshipType::Equals),
        constraint("c", &["b"], "b+1", RelationshipType::Equals),
        constraint("d", &["a", "c"], "a+c", RelationshipType::Equals),
    ];
    assert!(detect_cycles(&cs, &params).is_ok());
    let mut looped = cs.clone();
    looped.push(constraint("a", &["d"], "d", RelationshipType::Equals));
    assert!(detect_cycles(&looped, &params).is_err());
}

#[test]
fn left_associative_and_precedence() {
    assert_eq!(eval("10-4-3", &[], &[]), Ok(3.0));
    assert_eq!(eval("2+3*4^2", &[], &[]), Ok(50.0));
    assert_eq!(eval("a/(b-b)", &["a", "b"], &[1.0, 2.0]), Err(EvalError::DivByZero));
    assert_eq!(eval("a/(b-1)", &["a", "b"], &[1.0, 2.0]), Ok(1.0));
}

#[test]
fn end_moves_to_the_tail() {
    let out = parameterize_netlist(&names(&["t", ".end", "x"]), &vec![], &vec![]);
    assert_eq!(out.last().unwrap(), ".end");
    assert_eq!(out.iter().filter(|l| l.trim() == ".end").count(), 1);
    assert_eq!(out[out.len() - 2], "x");
}

#[test]
fn tests_need_a_directive() {
    let ok = test("a", vec![], ".op\nprint v(1)\n");
    let bad = test("b", vec![], "print v(1)\n");
    assert_eq!(test_without_directive(&vec![ok.clone()]), None);
    assert_eq!(test_without_directive(&vec![ok, bad]), Some(1));
}

#[test]
fn testbench_beside_the_schematic() {
    let x = XSchemNetlist::new("lib/amp.sch".to_string()).unwrap();
    assert_eq!(x.testbench_path(), Some("lib/amp_tb.sch".to_string()));
    let y = XSchemNetlist::new("amp.sch".to_string()).unwrap();
    assert_eq!(y.testbench_path(), Some("amp_tb.sch".to_string()));
}

#[test]
fn validated_constraints_take_their_sources() {
    let params = names(&["a", "b", "c"]);
    let mut cs = vec![constraint("c", &["a", "b"], "a*b", RelationshipType::Equals)];
    assert!(validate_constraints(&mut cs, &params).is_ok());
    assert_eq!(cs[0].get_compiled().unwrap().param_count(), 2);
}
