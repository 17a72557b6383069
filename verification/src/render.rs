//! The source text of the program that runs a compiled description: one
//! declaration for each stage, then the lines that wire the plan.
//!
//! The wiring is one chain of parallel iterators. The start stage's records
//! are bridged onto the worker pool, every transform is a parallel flat-map
//! boundary, a junction matches on the branch of each record, and a close
//! consumes each record and counts it.
//!
//! The lines name the stage of line `N` as `tN` and the counter as `stats`.
//! They call `start()`, `transform(i)`, `split(&i)` and `close(i)` on the
//! stages and `increment()` on the counter; the program around them provides
//! stages and a counter that take these calls from any worker.

use crate::description::{quote, quoted, Pipeline, StageLine, StageLineView};
use crate::text::{decimal_text, push_decimal, texts};
use crate::topology::{Plan, Step};
use vstd::prelude::*;
use vstd::string::*;

verus! {

/// One level of indentation.
pub open spec fn indent() -> Seq<char> {
    "    "@
}

/// The arguments of a stage as source text: each one quoted, a comma and a
/// space between two.
pub open spec fn quoted_list(args: Seq<Seq<char>>) -> Seq<char>
    decreases args.len(),
{
    if args.len() == 0 {
        Seq::empty()
    } else if args.len() == 1 {
        quoted(args[0])
    } else {
        quoted_list(args.drop_last()) + ", "@ + quoted(args.last())
    }
}

/// The statement that declares the stage of line `index` as the variable
/// `t` with that number: the stage's type is built from its arguments.
pub open spec fn declaration(index: nat, stage: StageLineView) -> Seq<char> {
    "    let t"@ + decimal_text(index) + " = "@ + stage.name + "::from(vec!["@ + quoted_list(
        stage.args,
    ) + "]);"@
}

/// Writes the declaration of the stage of line `index`.
pub fn declare(index: usize, stage: &StageLine) -> (out: String)
    ensures
        out@ == declaration(index as nat, stage@),
{
    let mut out = String::from_str("    let t");
    push_decimal(&mut out, index);
    out.append(" = ");
    out.append(stage.name.as_str());
    out.append("::from(vec![");
    let ghost head = out@;
    let ghost args = texts(stage.args@);
    let mut i: usize = 0;
    assert(args.take(0) =~= Seq::empty());
    assert(out@ =~= head + quoted_list(args.take(0)));
    while i < stage.args.len()
        invariant
            i <= stage.args.len(),
            args == texts(stage.args@),
            out@ == head + quoted_list(args.take(i as int)),
        decreases stage.args.len() - i,
    {
        proof {
            assert(args.take(i + 1).drop_last() =~= args.take(i as int));
            assert(args.take(i + 1).last() == args[i as int]);
            assert(args.take(i + 1)[0] == args[0]);
            assert(args[i as int] == stage.args@[i as int]@);
        }
        if i > 0 {
            out.append(", ");
        }
        let word = quote(stage.args[i].as_str());
        out.append(word.as_str());
        assert(out@ =~= head + quoted_list(args.take(i + 1)));
        i += 1;
    }
    assert(args.take(i as int) =~= args);
    out.append("]);");
    assert(out@ =~= declaration(index as nat, stage@));
    out
}

/// One line of the wiring.
#[derive(Clone, Copy, Debug, PartialEq, Eq, Structural)]
pub enum Statement {
    /// Begins the chain: the records of the start stage, bridged onto the
    /// worker pool.
    Start(usize),
    /// A transform behind the chain: a parallel flat-map boundary.
    FlatMap(usize),
    /// A close behind the chain: consumes each record and counts it.
    CloseEach(usize),
    /// A junction behind the chain: matches on the branch of each record.
    MatchEach(usize),
    /// Opens the arm of the first branch.
    ArmZero,
    /// A transform at the head of a branch: begins the branch's chain with
    /// what the stage makes of the record.
    Head(usize),
    /// A close at the head of a branch: consumes the record and counts it.
    CloseHead(usize),
    /// A junction at the head of a branch: matches on the branch of the record.
    MatchHead(usize),
    /// Ends an arm.
    EndArm,
    /// Opens the arm of the second branch.
    ArmOne,
    /// The arm of any other classification: never to be reached.
    ArmNone,
    /// Ends the match of a junction behind a chain.
    EndMatchEach,
    /// Ends the match of a junction at the head of a branch.
    EndMatchHead,
}

/// The text of a line.
pub open spec fn words(what: Statement) -> Seq<char> {
    match what {
        Statement::Start(index) => "    t"@ + decimal_text(index as nat) + ".start().par_bridge()"@,
        Statement::FlatMap(index) => "        .flat_map(|i| t"@ + decimal_text(index as nat)
            + ".transform(i).par_bridge())"@,
        Statement::CloseEach(index) => "        .for_each(|i| { t"@ + decimal_text(index as nat)
            + ".close(i); stats.increment(); })"@,
        Statement::MatchEach(index) => "        .for_each(|i| match t"@ + decimal_text(
            index as nat,
        ) + ".split(&i) {"@,
        Statement::ArmZero => "            0 => {"@,
        Statement::Head(index) => "    t"@ + decimal_text(index as nat)
            + ".transform(i).par_bridge()"@,
        Statement::CloseHead(index) => "    t"@ + decimal_text(index as nat)
            + ".close(i); stats.increment();"@,
        Statement::MatchHead(index) => "    match t"@ + decimal_text(index as nat)
            + ".split(&i) {"@,
        Statement::EndArm => "        },"@,
        Statement::ArmOne => "1 => {"@,
        Statement::ArmNone => "_ => unreachable!(),"@,
        Statement::EndMatchEach => "        });"@,
        Statement::EndMatchHead => "        }"@,
    }
}

/// Writes text that names a stage.
fn write_numbered(head: &str, index: usize, tail: &str) -> (out: String)
    ensures
        out@ == head@ + decimal_text(index as nat) + tail@,
{
    let mut out = String::from_str(head);
    push_decimal(&mut out, index);
    out.append(tail);
    out
}

/// Writes a line.
pub fn write_line(what: Statement) -> (out: String)
    ensures
        out@ == words(what),
{
    match what {
        Statement::Start(index) => write_numbered("    t", index, ".start().par_bridge()"),
        Statement::FlatMap(index) => write_numbered(
            "        .flat_map(|i| t",
            index,
            ".transform(i).par_bridge())",
        ),
        Statement::CloseEach(index) => write_numbered(
            "        .for_each(|i| { t",
            index,
            ".close(i); stats.increment(); })",
        ),
        Statement::MatchEach(index) => write_numbered(
            "        .for_each(|i| match t",
            index,
            ".split(&i) {",
        ),
        Statement::ArmZero => String::from_str("            0 => {"),
        Statement::Head(index) => write_numbered("    t", index, ".transform(i).par_bridge()"),
        Statement::CloseHead(index) => write_numbered(
            "    t",
            index,
            ".close(i); stats.increment();",
        ),
        Statement::MatchHead(index) => write_numbered("    match t", index, ".split(&i) {"),
        Statement::EndArm => String::from_str("        },"),
        Statement::ArmOne => String::from_str("1 => {"),
        Statement::ArmNone => String::from_str("_ => unreachable!(),"),
        Statement::EndMatchEach => String::from_str("        });"),
        Statement::EndMatchHead => String::from_str("        }"),
    }
}

/// The line of a transform, at the head of a branch or behind a chain.
pub open spec fn transform_line(index: usize, head: bool) -> Statement {
    if head {
        Statement::Head(index)
    } else {
        Statement::FlatMap(index)
    }
}

/// The line of a close, at the head of a branch or behind a chain.
pub open spec fn close_line(index: usize, head: bool) -> Statement {
    if head {
        Statement::CloseHead(index)
    } else {
        Statement::CloseEach(index)
    }
}

/// The line that opens the match of a junction.
pub open spec fn match_line(index: usize, head: bool) -> Statement {
    if head {
        Statement::MatchHead(index)
    } else {
        Statement::MatchEach(index)
    }
}

/// The line that ends the match of a junction.
pub open spec fn end_match_line(head: bool) -> Statement {
    if head {
        Statement::EndMatchHead
    } else {
        Statement::EndMatchEach
    }
}

/// The lines of a plan. `head` tells that the plan is a branch of a
/// junction, so that its first stage has a record at hand and not a chain.
///
/// A start begins the chain. A transform is one flat-map line; at the head of
/// a branch it begins the branch's chain. A close is one line that consumes
/// and counts. A junction opens a match with one arm for each branch, each
/// holding the lines of that branch, and an arm that is never to be reached.
pub open spec fn statements(plan: Plan, head: bool) -> Seq<Statement>
    decreases plan,
{
    match plan {
        Plan::End => Seq::empty(),
        Plan::Stage { index, step, rest } => match step {
            Step::Start => seq![Statement::Start(index)] + statements(*rest, false),
            Step::Transform => seq![transform_line(index, head)] + statements(*rest, false),
            Step::Close => seq![close_line(index, head)] + statements(*rest, false),
        },
        Plan::Fork { index, zero, one } => seq![match_line(index, head), Statement::ArmZero]
            + statements(*zero, true) + seq![Statement::EndArm, Statement::ArmOne] + statements(
            *one,
            true,
        ) + seq![Statement::EndArm, Statement::ArmNone, end_match_line(head)],
    }
}

/// Whether a line counts a record.
pub open spec fn counting(what: Statement) -> bool {
    what is CloseEach || what is CloseHead
}

/// The number of lines that count a record.
pub open spec fn tally(lines: Seq<Statement>) -> nat
    decreases lines.len(),
{
    if lines.len() == 0 {
        0
    } else {
        tally(lines.drop_last()) + if counting(lines.last()) {
            1nat
        } else {
            0nat
        }
    }
}

/// The number of closing stages in a plan, over all of its branches.
pub open spec fn closes_in(plan: Plan) -> nat
    decreases plan,
{
    match plan {
        Plan::End => 0,
        Plan::Stage { index, step, rest } => closes_in(*rest) + if step == Step::Close {
            1nat
        } else {
            0nat
        },
        Plan::Fork { index, zero, one } => closes_in(*zero) + closes_in(*one),
    }
}

/// The lines of two lists count as many records as each list by itself.
proof fn lemma_tally_concat(a: Seq<Statement>, b: Seq<Statement>)
    ensures
        tally(a + b) == tally(a) + tally(b),
    decreases b.len(),
{
    if b.len() == 0 {
        assert(a + b =~= a);
    } else {
        assert((a + b).drop_last() =~= a + b.drop_last());
        assert((a + b).last() == b.last());
        lemma_tally_concat(a, b.drop_last());
    }
}

/// The lines of a few statements count what each of them counts.
proof fn lemma_tally_few(lines: Seq<Statement>)
    requires
        lines.len() <= 3,
    ensures
        lines.len() == 0 ==> tally(lines) == 0,
        lines.len() == 1 ==> tally(lines) == if counting(lines[0]) { 1nat } else { 0nat },
        lines.len() >= 2 && (forall|i: int| 0 <= i < lines.len() ==> !counting(#[trigger] lines[i]))
            ==> tally(lines) == 0,
    decreases lines.len(),
{
    if lines.len() > 0 {
        assert forall|i: int| 0 <= i < lines.drop_last().len() implies lines.drop_last()[i]
            == lines[i] by {}
        lemma_tally_few(lines.drop_last());
    }
}

/// A record is counted exactly where it is closed: the lines of every plan
/// hold one counting line for each closing stage of the plan, and every
/// counting line is the line of a close.
pub proof fn lemma_one_count_per_close(plan: Plan, head: bool)
    ensures
        tally(statements(plan, head)) == closes_in(plan),
    decreases plan,
{
    match plan {
        Plan::End => {},
        Plan::Stage { index, step, rest } => {
            let first = match step {
                Step::Start => seq![Statement::Start(index)],
                Step::Transform => seq![transform_line(index, head)],
                Step::Close => seq![close_line(index, head)],
            };
            lemma_one_count_per_close(*rest, false);
            lemma_tally_few(first);
            lemma_tally_concat(first, statements(*rest, false));
        },
        Plan::Fork { index, zero, one } => {
            let open = seq![match_line(index, head), Statement::ArmZero];
            let middle = seq![Statement::EndArm, Statement::ArmOne];
            let close = seq![Statement::EndArm, Statement::ArmNone, end_match_line(head)];
            lemma_one_count_per_close(*zero, true);
            lemma_one_count_per_close(*one, true);
            lemma_tally_few(open);
            lemma_tally_few(middle);
            lemma_tally_few(close);
            lemma_tally_concat(open, statements(*zero, true));
            lemma_tally_concat(open + statements(*zero, true), middle);
            lemma_tally_concat(open + statements(*zero, true) + middle, statements(*one, true));
            lemma_tally_concat(
                open + statements(*zero, true) + middle + statements(*one, true),
                close,
            );
        },
    }
}

/// Appends the lines of `plan` to `out`.
pub fn render_into(plan: &Plan, head: bool, out: &mut Vec<Statement>)
    ensures
        final(out)@ == old(out)@ + statements(*plan, head),
    decreases plan,
{
    match plan {
        Plan::End => {},
        Plan::Stage { index, step, rest } => {
            match step {
                Step::Start => {
                    out.push(Statement::Start(*index));
                },
                Step::Transform => {
                    out.push(
                        if head {
                            Statement::Head(*index)
                        } else {
                            Statement::FlatMap(*index)
                        },
                    );
                },
                Step::Close => {
                    out.push(
                        if head {
                            Statement::CloseHead(*index)
                        } else {
                            Statement::CloseEach(*index)
                        },
                    );
                },
            }
            render_into(rest, false, out);
        },
        Plan::Fork { index, zero, one } => {
            out.push(
                if head {
                    Statement::MatchHead(*index)
                } else {
                    Statement::MatchEach(*index)
                },
            );
            out.push(Statement::ArmZero);
            render_into(zero, true, out);
            out.push(Statement::EndArm);
            out.push(Statement::ArmOne);
            render_into(one, true, out);
            out.push(Statement::EndArm);
            out.push(Statement::ArmNone);
            out.push(
                if head {
                    Statement::EndMatchHead
                } else {
                    Statement::EndMatchEach
                },
            );
        },
    }
    assert(out@ =~= old(out)@ + statements(*plan, head));
}

/// The declarations of the stages, in line order.
pub open spec fn declarations(stages: Seq<StageLine>) -> Seq<Seq<char>> {
    Seq::new(stages.len(), |i: int| declaration(i as nat, stages[i]@))
}

/// The text of each line.
pub open spec fn written(lines: Seq<Statement>) -> Seq<Seq<char>> {
    Seq::new(lines.len(), |i: int| words(lines[i]))
}

/// The body of the program: the declarations, an empty line, and the lines
/// of the plan.
pub open spec fn program(stages: Seq<StageLine>, plan: Plan) -> Seq<Seq<char>> {
    declarations(stages) + seq![Seq::<char>::empty()] + written(statements(plan, false))
}

/// Appends one line of text to `out`.
fn push_text(out: &mut Vec<String>, text: String)
    ensures
        texts(final(out)@) == texts(old(out)@).push(text@),
{
    out.push(text);
    assert(texts(out@) =~= texts(old(out)@).push(text@));
}

/// Writes the body of the program that runs `pipeline`, line by line.
pub fn render(pipeline: &Pipeline) -> (out: Vec<String>)
    ensures
        texts(out@) == program(pipeline.stages@, pipeline.plan),
{
    let mut out: Vec<String> = Vec::new();
    let mut i: usize = 0;
    while i < pipeline.stages.len()
        invariant
            i <= pipeline.stages.len(),
            texts(out@) =~= declarations(pipeline.stages@).take(i as int),
        decreases pipeline.stages.len() - i,
    {
        let line = declare(i, &pipeline.stages[i]);
        push_text(&mut out, line);
        i += 1;
    }
    assert(declarations(pipeline.stages@).take(i as int) =~= declarations(pipeline.stages@));
    push_text(&mut out, String::new());
    let ghost head = texts(out@);
    assert(head =~= declarations(pipeline.stages@) + seq![Seq::<char>::empty()]);
    let mut lines: Vec<Statement> = Vec::new();
    render_into(&pipeline.plan, false, &mut lines);
    assert(lines@ =~= statements(pipeline.plan, false));
    let mut j: usize = 0;
    while j < lines.len()
        invariant
            j <= lines.len(),
            texts(out@) =~= head + written(lines@).take(j as int),
        decreases lines.len() - j,
    {
        let text = write_line(lines[j]);
        assert(written(lines@)[j as int] == text@);
        push_text(&mut out, text);
        j += 1;
    }
    assert(written(lines@).take(j as int) =~= written(lines@));
    out
}

} // verus!
