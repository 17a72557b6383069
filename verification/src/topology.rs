//! The topology compiler: from the ordered stage list of a pipeline
//! description to a branching execution plan.

use vstd::prelude::*;

verus! {

/// What a line of the description declares, before its position is looked at.
#[derive(Clone, Copy, Debug, PartialEq, Eq, Structural)]
pub enum Node {
    /// A plain stage.
    Transformer,
    /// A branch point; the number tells how many of the following stages
    /// belong to the first branch alone.
    Junction(usize),
}

/// The part a stage plays in the plan.
#[derive(Clone, Copy, Debug, PartialEq, Eq, Structural)]
pub enum Role {
    Start,
    Transform,
    Close,
    Junction(usize),
}

/// Why a stage list has no plan.
#[derive(Clone, Copy, Debug, PartialEq, Eq, Structural)]
pub enum PlanError {
    /// The branch point declared on line `index` asks for more stages than follow it.
    BranchOutOfRange { index: usize },
    /// The branch point declared on line `index` takes every stage that
    /// follows it into its branches, so that nothing is left for both.
    BranchWithoutSuffix { index: usize },
}

/// What a stage on a spine does.
#[derive(Clone, Copy, Debug, PartialEq, Eq, Structural)]
pub enum Step {
    Start,
    Transform,
    Close,
}

/// An execution plan: a spine of stages that ends, or forks in two at a branch point.
#[derive(Debug, PartialEq, Eq)]
pub enum Plan {
    /// Nothing is left to do.
    End,
    /// The stage on line `index` takes the given step, then `rest` follows.
    Stage { index: usize, step: Step, rest: Box<Plan> },
    /// The junction on line `index` routes a record to `zero` or to `one`.
    Fork { index: usize, zero: Box<Plan>, one: Box<Plan> },
}

/// The step of a stage that is no branch point.
pub open spec fn step_of(role: Role) -> Step {
    match role {
        Role::Start => Step::Start,
        Role::Close => Step::Close,
        _ => Step::Transform,
    }
}

/// The role of the stage on line `index` of `total`: the first line starts,
/// the last line closes, and only in between does the declaration decide.
pub open spec fn role_of(index: usize, node: Node, total: usize) -> Role {
    if index == 0 {
        Role::Start
    } else if index + 1 == total {
        Role::Close
    } else {
        match node {
            Node::Transformer => Role::Transform,
            Node::Junction(k) => Role::Junction(k),
        }
    }
}

/// The first branch behind a junction: the `k` stages of its own, then the common suffix.
pub open spec fn branch_zero(after: Seq<(usize, Node)>, k: int) -> Seq<(usize, Node)> {
    after.subrange(0, k) + after.subrange(k + 1, after.len() as int)
}

/// The second branch behind a junction: the one stage at position `k`, then the common suffix.
pub open spec fn branch_one(after: Seq<(usize, Node)>, k: int) -> Seq<(usize, Node)> {
    after.subrange(k, k + 1) + after.subrange(k + 1, after.len() as int)
}

/// The plan of a stage list, or the first branch point that cannot be split.
///
/// A branch point with parameter `k` needs more than `k + 1` stages behind
/// it: `k` for its first branch, one for its second, and a suffix common to
/// both.
pub open spec fn plan_of(nodes: Seq<(usize, Node)>, total: usize) -> Result<Plan, PlanError>
    decreases nodes.len(),
{
    if nodes.len() == 0 {
        Ok(Plan::End)
    } else {
        let index = nodes[0].0;
        let after = nodes.subrange(1, nodes.len() as int);
        match role_of(index, nodes[0].1, total) {
            Role::Junction(k) => {
                if k >= after.len() {
                    Err(PlanError::BranchOutOfRange { index })
                } else if k + 1 == after.len() {
                    Err(PlanError::BranchWithoutSuffix { index })
                } else {
                    match plan_of(branch_zero(after, k as int), total) {
                        Err(e) => Err(e),
                        Ok(zero) => match plan_of(branch_one(after, k as int), total) {
                            Err(e) => Err(e),
                            Ok(one) => Ok(
                                Plan::Fork { index, zero: Box::new(zero), one: Box::new(one) },
                            ),
                        },
                    }
                }
            },
            role => match plan_of(after, total) {
                Err(e) => Err(e),
                Ok(rest) => Ok(Plan::Stage { index, step: step_of(role), rest: Box::new(rest) }),
            },
        }
    }
}

/// Assigns the stage on line `index` of `total` its role.
pub fn assign_role(index: usize, node: Node, total: usize) -> (role: Role)
    ensures
        role == role_of(index, node, total),
{
    if index == 0 {
        Role::Start
    } else if total > 0 && index == total - 1 {
        Role::Close
    } else {
        match node {
            Node::Transformer => Role::Transform,
            Node::Junction(k) => Role::Junction(k),
        }
    }
}

/// Copies the stages at positions `from..to`, then those at `resume..`.
fn splice(nodes: &Vec<(usize, Node)>, from: usize, to: usize, resume: usize) -> (out: Vec<(usize, Node)>)
    requires
        from <= to <= resume <= nodes.len(),
    ensures
        out@ == nodes@.subrange(from as int, to as int) + nodes@.subrange(
            resume as int,
            nodes.len() as int,
        ),
{
    let mut out: Vec<(usize, Node)> = Vec::new();
    let mut i: usize = from;
    while i < to
        invariant
            from <= i <= to <= resume <= nodes.len(),
            out@ == nodes@.subrange(from as int, i as int),
        decreases to - i,
    {
        out.push(nodes[i]);
        i += 1;
    }
    let ghost head = out@;
    let mut j: usize = resume;
    while j < nodes.len()
        invariant
            resume <= j <= nodes.len(),
            out@ == head + nodes@.subrange(resume as int, j as int),
        decreases nodes.len() - j,
    {
        out.push(nodes[j]);
        j += 1;
    }
    out
}

/// Splits the stages behind a junction into its two branches.
///
/// Fails exactly when `k` does not name one of the stages in `after`.
pub fn split_branches(after: &Vec<(usize, Node)>, k: usize) -> (out: Option<
    (Vec<(usize, Node)>, Vec<(usize, Node)>),
>)
    ensures
        out is Some <==> k < after.len(),
        out matches Some(pair) ==> pair.0@ == branch_zero(after@, k as int) && pair.1@
            == branch_one(after@, k as int),
{
    if k >= after.len() {
        return None;
    }
    let zero = splice(after, 0, k, k + 1);
    let one = splice(after, k, k + 1, k + 1);
    Some((zero, one))
}

/// Compiles the stage list `nodes` of a description of `total` lines into
/// its plan, or tells which branch point cannot be split.
///
/// Stages run in list order. At a branch point the list behind it is split in
/// two and each branch is compiled on its own, further branch points included.
pub fn try_plan(nodes: Vec<(usize, Node)>, total: usize) -> (out: Result<Plan, PlanError>)
    ensures
        out == plan_of(nodes@, total),
    decreases nodes.len(),
{
    if nodes.len() == 0 {
        return Ok(Plan::End);
    }
    let (index, node) = nodes[0];
    let after = splice(&nodes, 1, nodes.len(), nodes.len());
    assert(after@ == nodes@.subrange(1, nodes.len() as int));
    match assign_role(index, node, total) {
        Role::Junction(k) => {
            match split_branches(&after, k) {
                None => Err(PlanError::BranchOutOfRange { index }),
                Some((first, second)) => {
                    if k + 1 == after.len() {
                        return Err(PlanError::BranchWithoutSuffix { index });
                    }
                    let zero = match try_plan(first, total) {
                        Err(e) => { return Err(e); },
                        Ok(p) => p,
                    };
                    let one = match try_plan(second, total) {
                        Err(e) => { return Err(e); },
                        Ok(p) => p,
                    };
                    Ok(Plan::Fork { index, zero: Box::new(zero), one: Box::new(one) })
                },
            }
        },
        role => {
            let step = match role {
                Role::Start => Step::Start,
                Role::Close => Step::Close,
                _ => Step::Transform,
            };
            match try_plan(after, total) {
                Err(e) => Err(e),
                Ok(rest) => Ok(Plan::Stage { index, step, rest: Box::new(rest) }),
            }
        },
    }
}

/// Compiles a stage list that has a plan into that plan.
pub fn plan_pipeline(nodes: Vec<(usize, Node)>, total: usize) -> (out: Plan)
    requires
        plan_of(nodes@, total) is Ok,
    ensures
        plan_of(nodes@, total) == Ok::<Plan, PlanError>(out),
{
    match try_plan(nodes, total) {
        Ok(plan) => plan,
        Err(_) => vstd::pervasive::unreached(),
    }
}

/// Whether every path through `plan` from here to an end meets a closing
/// stage exactly once, `seen` of them having been met on the way here.
pub open spec fn closes(plan: Plan, seen: nat) -> bool
    decreases plan,
{
    match plan {
        Plan::End => seen == 1,
        Plan::Stage { index, step, rest } => closes(
            *rest,
            if step == Step::Close {
                seen + 1
            } else {
                seen
            },
        ),
        Plan::Fork { index, zero, one } => closes(*zero, seen) && closes(*one, seen),
    }
}

/// Line numbers grow along the list.
pub open spec fn ascending(nodes: Seq<(usize, Node)>) -> bool {
    forall|i: int, j: int| 0 <= i < j < nodes.len() ==> nodes[i].0 < nodes[j].0
}

/// The list ends with the last line of a description of `total` lines, and
/// that line is not also the first.
pub open spec fn ends_with_close(nodes: Seq<(usize, Node)>, total: usize) -> bool {
    nodes.len() > 0 && nodes.last().0 > 0 && nodes.last().0 + 1 == total
}

/// Behind a junction with parameter `k`, where `k` names one of the `after`
/// stages: the first branch is the `k` stages before position `k` followed by
/// the stages behind it, the second branch is the stage at position `k`
/// followed by the same stages, and no stage is lost or doubled within a branch.
pub proof fn lemma_branch_shapes(after: Seq<(usize, Node)>, k: int)
    requires
        0 <= k < after.len(),
    ensures
        branch_zero(after, k).len() == k + (after.len() - k - 1),
        branch_one(after, k).len() == 1 + (after.len() - k - 1),
        forall|i: int| 0 <= i < k ==> branch_zero(after, k)[i] == after[i],
        branch_one(after, k)[0] == after[k],
        forall|i: int|
            k < i < after.len() ==> branch_zero(after, k)[i - 1] == #[trigger] after[i]
                && branch_one(after, k)[i - k] == after[i],
{
}

/// Where a junction leaves a suffix behind its branches, both branches end
/// with the stage that the list behind the junction ends with, and keep the
/// order of the lines.
pub proof fn lemma_branches_keep_close(after: Seq<(usize, Node)>, k: int, total: usize)
    requires
        0 <= k,
        k + 1 < after.len(),
        ascending(after),
        ends_with_close(after, total),
    ensures
        ascending(branch_zero(after, k)),
        ascending(branch_one(after, k)),
        ends_with_close(branch_zero(after, k), total),
        ends_with_close(branch_one(after, k), total),
        branch_zero(after, k).last() == after.last(),
        branch_one(after, k).last() == after.last(),
{
    lemma_branch_shapes(after, k);
    let zero = branch_zero(after, k);
    let one = branch_one(after, k);
    assert forall|i: int, j: int| 0 <= i < j < zero.len() implies zero[i].0 < zero[j].0 by {
        let a = if i < k { i } else { i + 1 };
        let b = if j < k { j } else { j + 1 };
        assert(zero[i] == after[a]);
        assert(zero[j] == after[b]);
    }
    assert forall|i: int, j: int| 0 <= i < j < one.len() implies one[i].0 < one[j].0 by {
        assert(one[i] == after[k + i]);
        assert(one[j] == after[k + j]);
    }
}

/// Every leaf of a plan closes exactly once: if the list has ascending line
/// numbers, ends with the closing line, and has a plan, then every path
/// through that plan meets exactly one closing stage.
pub proof fn lemma_every_leaf_closes_once(nodes: Seq<(usize, Node)>, total: usize)
    requires
        ascending(nodes),
        ends_with_close(nodes, total),
        plan_of(nodes, total) is Ok,
    ensures
        closes(plan_of(nodes, total).unwrap(), 0),
    decreases nodes.len(),
{
    let after = nodes.subrange(1, nodes.len() as int);
    reveal_with_fuel(closes, 2);
    if nodes.len() == 1 {
        assert(role_of(nodes[0].0, nodes[0].1, total) == Role::Close);
        assert(plan_of(after, total) == Ok::<Plan, PlanError>(Plan::End));
    } else {
        assert(nodes[0].0 < nodes[nodes.len() - 1].0);
        assert(after.last() == nodes.last());
        assert(ascending(after)) by {
            assert forall|i: int, j: int| 0 <= i < j < after.len() implies after[i].0
                < after[j].0 by {
                assert(after[i] == nodes[i + 1]);
                assert(after[j] == nodes[j + 1]);
            }
        }
        match role_of(nodes[0].0, nodes[0].1, total) {
            Role::Junction(k) => {
                lemma_branches_keep_close(after, k as int, total);
                lemma_every_leaf_closes_once(branch_zero(after, k as int), total);
                lemma_every_leaf_closes_once(branch_one(after, k as int), total);
            },
            _ => {
                lemma_every_leaf_closes_once(after, total);
            },
        }
    }
}

} // verus!
