use rayon_ingest::description::{
    classify_words, compile, number_stages, parse_description, parse_index, parse_line, quote,
    CompileError, DescriptionError, LineError,
};
use rayon_ingest::render::{declare, render, render_into, write_line, Statement};
use rayon_ingest::text::{parse_digits, starts_with};
use rayon_ingest::topology::{
    assign_role, plan_pipeline, split_branches, try_plan, Node, Plan, PlanError, Role, Step,
};

fn stage(index: usize, step: Step, rest: Plan) -> Plan {
    Plan::Stage { index, step, rest: Box::new(rest) }
}

fn transformers(n: usize) -> Vec<(usize, Node)> {
    (0..n).map(|i| (i, Node::Transformer)).collect()
}

/// The number of closing stages on each path of a plan, path by path.
fn closes_per_leaf(plan: &Plan, seen: usize, out: &mut Vec<usize>) {
    match plan {
        Plan::End => out.push(seen),
        Plan::Stage { step, rest, .. } => {
            closes_per_leaf(rest, if *step == Step::Close { seen + 1 } else { seen }, out)
        }
        Plan::Fork { zero, one, .. } => {
            closes_per_leaf(zero, seen, out);
            closes_per_leaf(one, seen, out);
        }
    }
}

#[test]
fn roles_go_by_position_first() {
    assert_eq!(assign_role(0, Node::Junction(3), 5), Role::Start);
    assert_eq!(assign_role(4, Node::Junction(3), 5), Role::Close);
    assert_eq!(assign_role(2, Node::Junction(3), 5), Role::Junction(3));
    assert_eq!(assign_role(2, Node::Transformer, 5), Role::Transform);
    assert_eq!(assign_role(0, Node::Transformer, 1), Role::Start);
}

#[test]
fn linear_plan_runs_start_to_close() {
    let plan = try_plan(transformers(4), 4);
    let want = stage(
        0,
        Step::Start,
        stage(1, Step::Transform, stage(2, Step::Transform, stage(3, Step::Close, Plan::End))),
    );
    assert_eq!(plan, Ok(want));
}

#[test]
fn empty_list_has_the_empty_plan() {
    assert_eq!(try_plan(Vec::new(), 0), Ok(Plan::End));
    assert_eq!(plan_pipeline(Vec::new(), 0), Plan::End);
}

#[test]
fn junction_splits_into_k_stages_and_one_stage() {
    let mut nodes = transformers(7);
    nodes[1] = (1, Node::Junction(2));
    let plan = plan_pipeline(nodes, 7);
    let tail = || stage(5, Step::Transform, stage(6, Step::Close, Plan::End));
    let want = stage(
        0,
        Step::Start,
        Plan::Fork {
            index: 1,
            zero: Box::new(stage(2, Step::Transform, stage(3, Step::Transform, tail()))),
            one: Box::new(stage(4, Step::Transform, tail())),
        },
    );
    assert_eq!(plan, want);
    let mut leaves = Vec::new();
    closes_per_leaf(&plan, 0, &mut leaves);
    assert_eq!(leaves, vec![1, 1]);
}

#[test]
fn split_branches_share_the_suffix() {
    let after = vec![
        (3, Node::Transformer),
        (4, Node::Transformer),
        (5, Node::Transformer),
        (6, Node::Transformer),
    ];
    let (zero, one) = split_branches(&after, 1).unwrap();
    assert_eq!(zero, vec![(3, Node::Transformer), (5, Node::Transformer), (6, Node::Transformer)]);
    assert_eq!(one, vec![(4, Node::Transformer), (5, Node::Transformer), (6, Node::Transformer)]);
    let (zero, one) = split_branches(&after, 0).unwrap();
    assert_eq!(zero, after[1..].to_vec());
    assert_eq!(one, after);
    assert_eq!(split_branches(&after, 4), None);
    assert_eq!(split_branches(&Vec::new(), 0), None);
}

#[test]
fn junction_asking_for_too_much_is_refused() {
    let mut nodes = transformers(5);
    nodes[2] = (2, Node::Junction(2));
    assert_eq!(try_plan(nodes, 5), Err(PlanError::BranchOutOfRange { index: 2 }));
}

#[test]
fn junction_without_suffix_is_refused() {
    let mut nodes = transformers(4);
    nodes[1] = (1, Node::Junction(1));
    assert_eq!(try_plan(nodes, 4), Err(PlanError::BranchWithoutSuffix { index: 1 }));
    let mut nodes = transformers(3);
    nodes[1] = (1, Node::Junction(0));
    assert_eq!(try_plan(nodes, 3), Err(PlanError::BranchWithoutSuffix { index: 1 }));
    let mut nodes = transformers(4);
    nodes[1] = (1, Node::Junction(0));
    let plan = try_plan(nodes, 4).unwrap();
    let mut leaves = Vec::new();
    closes_per_leaf(&plan, 0, &mut leaves);
    assert_eq!(leaves, vec![1, 1]);
}

#[test]
fn nested_junction_without_suffix_is_refused() {
    let mut nodes = transformers(6);
    nodes[1] = (1, Node::Junction(1));
    nodes[3] = (3, Node::Junction(1));
    assert_eq!(try_plan(nodes, 6), Err(PlanError::BranchWithoutSuffix { index: 3 }));
}

#[test]
fn nested_junctions_split_each_branch() {
    let mut nodes = transformers(7);
    nodes[1] = (1, Node::Junction(1));
    nodes[2] = (2, Node::Junction(0));
    let plan = plan_pipeline(nodes, 7);
    let mut leaves = Vec::new();
    closes_per_leaf(&plan, 0, &mut leaves);
    assert_eq!(leaves, vec![1, 1, 1]);
    match plan {
        Plan::Stage { rest, .. } => match *rest {
            Plan::Fork { index, zero, one } => {
                assert_eq!(index, 1);
                assert!(matches!(*zero, Plan::Fork { index: 2, .. }));
                assert!(matches!(*one, Plan::Stage { index: 3, step: Step::Transform, .. }));
            }
            other => panic!("no fork: {:?}", other),
        },
        other => panic!("no start: {:?}", other),
    }
}

#[test]
fn plain_line_names_stage_and_arguments() {
    let line = parse_line("Glob \"*.txt\" 'b c' d\\ e").unwrap();
    assert_eq!(line.name, "Glob");
    assert_eq!(line.node, Node::Transformer);
    assert_eq!(line.args, vec!["*.txt".to_string(), "b c".to_string(), "d e".to_string()]);
}

#[test]
fn junction_line_names_parameter_then_stage() {
    let line = parse_line("Junction:12 SplitByExt toml csv").unwrap();
    assert_eq!(line.name, "SplitByExt");
    assert_eq!(line.node, Node::Junction(12));
    assert_eq!(line.args, vec!["toml".to_string(), "csv".to_string()]);
    let line = parse_line("Junction:0 S").unwrap();
    assert_eq!(line.node, Node::Junction(0));
    assert!(line.args.is_empty());
}

#[test]
fn lines_that_declare_nothing() {
    assert_eq!(parse_line("Glob \"abc").unwrap_err(), LineError::Unbalanced);
    assert_eq!(parse_line("   ").unwrap_err(), LineError::Empty);
    assert_eq!(parse_line("").unwrap_err(), LineError::Empty);
    assert_eq!(parse_line("Junction:x SplitByExt").unwrap_err(), LineError::BadBranch);
    assert_eq!(parse_line("Junction: SplitByExt").unwrap_err(), LineError::BadBranch);
    assert_eq!(parse_line("Junction:-1 SplitByExt").unwrap_err(), LineError::BadBranch);
    assert_eq!(parse_line("Junction:1").unwrap_err(), LineError::MissingStage);
    assert_eq!(classify_words(Vec::new()).unwrap_err(), LineError::Empty);
}

#[test]
fn branch_numbers_are_plain_decimals() {
    assert_eq!(parse_index("0"), Some(0));
    assert_eq!(parse_index("12"), Some(12));
    assert_eq!(parse_index("007"), Some(7));
    assert_eq!(parse_index(""), None);
    assert_eq!(parse_index("+3"), Some(3));
    assert_eq!(parse_index("+"), None);
    assert_eq!(parse_index("++3"), None);
    assert_eq!(parse_index("3+"), None);
    assert_eq!(parse_index(" 3"), None);
    assert_eq!(parse_index("1a"), None);
    assert_eq!(parse_digits("+3"), None);
    assert_eq!(parse_digits("42"), Some(42));
    assert_eq!(parse_index(&usize::MAX.to_string()), Some(usize::MAX));
    assert_eq!(parse_index("340282366920938463463374607431768211456"), None);
}

#[test]
fn prefix_test_is_exact() {
    assert!(starts_with("Junction:1", "Junction:"));
    assert!(starts_with("abc", ""));
    assert!(!starts_with("Junction", "Junction:"));
    assert!(!starts_with("junction:1", "Junction:"));
}

#[test]
fn quote_writes_text_that_denotes_the_argument() {
    assert_eq!(quote("abc"), "String::from(\"abc\")");
    assert_eq!(quote("a\"b"), "String::from(\"a\\\"b\")");
    assert_eq!(quote(""), "String::from(\"\")");
    assert_eq!(quote("a\\b"), "String::from(\"a\\\\b\")");
    assert_eq!(quote("\"\""), "String::from(\"\\\"\\\"\")");
    assert_eq!(quote("a\nb\rc\td"), "String::from(\"a\\nb\\rc\\td\")");
    assert_eq!(quote("\u{0}\u{1b}\u{7f}\u{85}"), "String::from(\"\\u{0}\\u{1b}\\u{7f}\\u{85}\")");
    assert_eq!(quote("*.txt {a} 'b'"), "String::from(\"*.txt {a} 'b'\")");
}

#[test]
fn quote_leaves_other_characters_as_they_are() {
    let plain = "h\u{e9} \u{a0}\u{4e2d}\u{10ffff}~";
    assert_eq!(quote(plain), format!("String::from(\"{}\")", plain));
    assert_eq!(quote("\u{e9}").chars().count(), 17);
    let quoted = "say \"\u{e9}\" \"x\"";
    assert_eq!(quote(quoted).chars().count(), quoted.chars().count() + 16 + 4);
}

#[test]
fn description_is_read_line_by_line() {
    let lines: Vec<String> = ["Glob *.txt", "Unpack", "Junction:1 SplitByExt txt csv", "Lines", "Csv", "Nullify"]
        .iter()
        .map(|s| s.to_string())
        .collect();
    let stages = parse_description(&lines).unwrap();
    assert_eq!(stages.len(), 6);
    let nodes = number_stages(&stages);
    assert_eq!(
        nodes,
        vec![
            (0, Node::Transformer),
            (1, Node::Transformer),
            (2, Node::Junction(1)),
            (3, Node::Transformer),
            (4, Node::Transformer),
            (5, Node::Transformer),
        ]
    );
    let plan = try_plan(nodes, lines.len()).unwrap();
    let mut leaves = Vec::new();
    closes_per_leaf(&plan, 0, &mut leaves);
    assert_eq!(leaves, vec![1, 1]);
}

#[test]
fn description_reports_first_bad_line() {
    let lines: Vec<String> =
        ["Glob *.txt", "Junction:z X", "Lines \"", "Nullify"].iter().map(|s| s.to_string()).collect();
    assert_eq!(
        parse_description(&lines).unwrap_err(),
        DescriptionError { line: 1, why: LineError::BadBranch }
    );
}

#[test]
fn compile_reads_and_plans() {
    let lines: Vec<String> =
        ["Glob \"*.txt\"", "Unpack", "Lines", "Nullify"].iter().map(|s| s.to_string()).collect();
    let pipeline = compile(&lines).unwrap();
    assert_eq!(pipeline.stages.len(), 4);
    assert_eq!(pipeline.stages[0].name, "Glob");
    assert_eq!(pipeline.stages[0].args, vec!["*.txt".to_string()]);
    let want = stage(
        0,
        Step::Start,
        stage(1, Step::Transform, stage(2, Step::Transform, stage(3, Step::Close, Plan::End))),
    );
    assert_eq!(pipeline.plan, want);
}

#[test]
fn compile_reports_lines_before_branches() {
    let lines: Vec<String> =
        ["Glob a", "Junction:9 S", "Lines", "Nullify"].iter().map(|s| s.to_string()).collect();
    assert_eq!(
        compile(&lines).unwrap_err(),
        CompileError::Plan(PlanError::BranchOutOfRange { index: 1 })
    );
    let lines: Vec<String> =
        ["Glob a", "Junction:9 S", "", "Nullify"].iter().map(|s| s.to_string()).collect();
    assert_eq!(
        compile(&lines).unwrap_err(),
        CompileError::Line(DescriptionError { line: 2, why: LineError::Empty })
    );
}

#[test]
fn junction_on_first_or_last_line_is_no_branch_point() {
    let lines: Vec<String> =
        ["Junction:5 Glob a", "Lines", "Junction:7 Nullify"].iter().map(|s| s.to_string()).collect();
    let pipeline = compile(&lines).unwrap();
    let want = stage(0, Step::Start, stage(1, Step::Transform, stage(2, Step::Close, Plan::End)));
    assert_eq!(pipeline.plan, want);
}

#[test]
fn compile_refuses_short_descriptions() {
    assert_eq!(compile(&Vec::new()).unwrap_err(), CompileError::TooShort);
    assert_eq!(compile(&vec!["Glob a".to_string()]).unwrap_err(), CompileError::TooShort);
    assert_eq!(
        compile(&vec!["Glob \"".to_string()]).unwrap_err(),
        CompileError::Line(DescriptionError { line: 0, why: LineError::Unbalanced })
    );
    assert!(compile(&vec!["Glob a".to_string(), "Nullify".to_string()]).is_ok());
}

#[test]
fn compile_refuses_branch_point_without_suffix() {
    let lines: Vec<String> =
        ["Glob a", "Junction:1 S", "Lines", "Nullify"].iter().map(|s| s.to_string()).collect();
    assert_eq!(
        compile(&lines).unwrap_err(),
        CompileError::Plan(PlanError::BranchWithoutSuffix { index: 1 })
    );
    let lines: Vec<String> =
        ["Glob a", "Junction:0 S", "Nullify"].iter().map(|s| s.to_string()).collect();
    assert_eq!(
        compile(&lines).unwrap_err(),
        CompileError::Plan(PlanError::BranchWithoutSuffix { index: 1 })
    );
}

#[test]
fn declaration_quotes_each_argument() {
    let line = parse_line("Glob \"*.txt\" 'say \"hi\"' a\\\\b").unwrap();
    assert_eq!(
        declare(0, &line),
        "    let t0 = Glob::from(vec![String::from(\"*.txt\"), String::from(\"say \\\"hi\\\"\"), String::from(\"a\\\\b\")]);"
    );
    let line = parse_line("Junction:1 SplitByExt toml").unwrap();
    assert_eq!(declare(12, &line), "    let t12 = SplitByExt::from(vec![String::from(\"toml\")]);");
    let line = parse_line("Lines").unwrap();
    assert_eq!(declare(3, &line), "    let t3 = Lines::from(vec![]);");
}

fn lines_of_plan(plan: &Plan) -> Vec<String> {
    let mut lines = Vec::new();
    render_into(plan, false, &mut lines);
    lines.into_iter().map(write_line).collect()
}

#[test]
fn four_plain_stages_are_four_lines() {
    let plan = plan_pipeline(transformers(4), 4);
    assert_eq!(
        lines_of_plan(&plan),
        vec![
            "    t0.start().par_bridge()",
            "        .flat_map(|i| t1.transform(i).par_bridge())",
            "        .flat_map(|i| t2.transform(i).par_bridge())",
            "        .for_each(|i| { t3.close(i); stats.increment(); })",
        ]
    );
}

#[test]
fn program_holds_declarations_and_wiring() {
    let lines: Vec<String> =
        ["Glob *.txt", "Unpack", "Nullify"].iter().map(|s| s.to_string()).collect();
    let text = render(&compile(&lines).unwrap());
    assert_eq!(
        text,
        vec![
            "    let t0 = Glob::from(vec![String::from(\"*.txt\")]);",
            "    let t1 = Unpack::from(vec![]);",
            "    let t2 = Nullify::from(vec![]);",
            "",
            "    t0.start().par_bridge()",
            "        .flat_map(|i| t1.transform(i).par_bridge())",
            "        .for_each(|i| { t2.close(i); stats.increment(); })",
        ]
    );
}

#[test]
fn junction_matches_on_the_branch() {
    let mut nodes = transformers(6);
    nodes[2] = (2, Node::Junction(1));
    let plan = plan_pipeline(nodes, 6);
    assert_eq!(
        lines_of_plan(&plan),
        vec![
            "    t0.start().par_bridge()",
            "        .flat_map(|i| t1.transform(i).par_bridge())",
            "        .for_each(|i| match t2.split(&i) {",
            "            0 => {",
            "    t3.transform(i).par_bridge()",
            "        .for_each(|i| { t5.close(i); stats.increment(); })",
            "        },",
            "1 => {",
            "    t4.transform(i).par_bridge()",
            "        .for_each(|i| { t5.close(i); stats.increment(); })",
            "        },",
            "_ => unreachable!(),",
            "        });",
        ]
    );
}

#[test]
fn branch_may_begin_with_a_close_or_a_junction() {
    let mut nodes = transformers(6);
    nodes[1] = (1, Node::Junction(1));
    nodes[2] = (2, Node::Junction(0));
    let plan = plan_pipeline(nodes, 6);
    assert_eq!(
        lines_of_plan(&plan),
        vec![
            "    t0.start().par_bridge()",
            "        .for_each(|i| match t1.split(&i) {",
            "            0 => {",
            "    match t2.split(&i) {",
            "            0 => {",
            "    t5.close(i); stats.increment();",
            "        },",
            "1 => {",
            "    t4.transform(i).par_bridge()",
            "        .for_each(|i| { t5.close(i); stats.increment(); })",
            "        },",
            "_ => unreachable!(),",
            "        }",
            "        },",
            "1 => {",
            "    t3.transform(i).par_bridge()",
            "        .flat_map(|i| t4.transform(i).par_bridge())",
            "        .for_each(|i| { t5.close(i); stats.increment(); })",
            "        },",
            "_ => unreachable!(),",
            "        });",
        ]
    );
}

#[test]
fn program_counts_once_for_each_close() {
    let lines: Vec<String> =
        ["Glob a", "Unpack", "Junction:1 SplitByExt a b", "Lines", "Csv", "Identity", "Nullify"]
            .iter()
            .map(|s| s.to_string())
            .collect();
    let pipeline = compile(&lines).unwrap();
    let mut out = Vec::new();
    render_into(&pipeline.plan, false, &mut out);
    let counting = out
        .iter()
        .filter(|w| matches!(w, Statement::CloseEach(6) | Statement::CloseHead(6)))
        .count();
    assert_eq!(counting, 2);
    let text: Vec<String> = out.into_iter().map(write_line).collect();
    for line in &text {
        assert_eq!(line.contains("stats.increment()"), line.contains(".close(i)"));
        assert!(line.matches("stats.increment()").count() <= 1);
    }
    assert_eq!(text.iter().filter(|l| l.contains("stats.increment()")).count(), 2);
}
