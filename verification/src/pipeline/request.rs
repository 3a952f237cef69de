use std::sync::Arc;
use std::sync::atomic::AtomicBool;

use vstd::prelude::*;

use crate::pipeline::stage::{Stage, all_stages, stage_rank};

verus! {

/// What part of the pipeline a request runs.
#[derive(Clone, Debug, Default, PartialEq, Eq)]
pub enum Operation {
    /// Every stage.
    #[default]
    Full,
    /// Every stage that the named stage depends on, and the stage itself.
    Through { stage: Stage },
    /// Exactly the named stage.
    Only { stage: Stage },
    /// The named stages, run in pipeline order whatever order they are listed in.
    Stages { stages: Vec<Stage> },
}

/// Why an operation selects nothing to run.
#[derive(Clone, Copy, Debug, PartialEq, Eq, Structural)]
pub enum OperationError {
    /// The operation names no stage at all.
    NoStageSelected,
}

/// `seq![stage]` when `wanted` holds it, the empty sequence otherwise.
pub open spec fn keep_if_listed(wanted: Seq<Stage>, stage: Stage) -> Seq<Stage> {
    if wanted.contains(stage) {
        seq![stage]
    } else {
        Seq::empty()
    }
}

/// The stages of `all_stages()` that `wanted` lists, in pipeline order.
pub open spec fn listed_in_order(wanted: Seq<Stage>) -> Seq<Stage> {
    keep_if_listed(wanted, Stage::Detection) + keep_if_listed(wanted, Stage::Ocr)
        + keep_if_listed(wanted, Stage::Translation) + keep_if_listed(wanted, Stage::Inpainting)
}

/// The stages that an operation expands to.
pub open spec fn operation_stages(operation: Operation) -> Seq<Stage> {
    match operation {
        Operation::Full => all_stages(),
        Operation::Through { stage } => match stage {
            Stage::Detection => seq![Stage::Detection],
            Stage::Ocr => seq![Stage::Detection, Stage::Ocr],
            Stage::Translation => seq![Stage::Detection, Stage::Ocr, Stage::Translation],
            Stage::Inpainting => seq![Stage::Detection, Stage::Inpainting],
        },
        Operation::Only { stage } => seq![stage],
        Operation::Stages { stages } => listed_in_order(stages@),
    }
}

/// A sequence of stages that never goes back in pipeline order and never repeats.
pub open spec fn strictly_ordered(stages: Seq<Stage>) -> bool {
    forall|i: int, j: int|
        0 <= i < j < stages.len() ==> stage_rank(#[trigger] stages[i]) < stage_rank(#[trigger] stages[j])
}

fn push_if_listed(out: &mut Vec<Stage>, wanted: &Vec<Stage>, stage: Stage)
    ensures
        final(out)@ == old(out)@ + keep_if_listed(wanted@, stage),
{
    let mut i: usize = 0;
    while i < wanted.len()
        invariant
            i <= wanted.len(),
            *out == *old(out),
            forall|k: int| 0 <= k < i ==> wanted@[k] != stage,
        decreases wanted.len() - i,
    {
        if wanted[i] == stage {
            out.push(stage);
            proof {
                assert(wanted@.contains(stage));
                assert(keep_if_listed(wanted@, stage) =~= seq![stage]);
            }
            return;
        }
        i = i + 1;
    }
    proof {
        assert(!wanted@.contains(stage));
        assert(old(out)@ + keep_if_listed(wanted@, stage) =~= old(out)@);
    }
}

impl Operation {
    /// Expands the operation to the stages it runs, in pipeline order.
    ///
    /// Fails exactly when the operation selects no stage, which only an
    /// explicit stage list that names none can do.
    pub fn stages(&self) -> (result: Result<Vec<Stage>, OperationError>)
        ensures
            match result {
                Ok(stages) => stages@ == operation_stages(*self) && stages@.len() > 0,
                Err(error) => error == OperationError::NoStageSelected
                    && operation_stages(*self).len() == 0,
            },
    {
        let stages = match self {
            Operation::Full => Stage::all(),
            Operation::Through { stage } => match stage {
                Stage::Detection => vec![Stage::Detection],
                Stage::Ocr => vec![Stage::Detection, Stage::Ocr],
                Stage::Translation => vec![Stage::Detection, Stage::Ocr, Stage::Translation],
                Stage::Inpainting => vec![Stage::Detection, Stage::Inpainting],
            },
            Operation::Only { stage } => vec![*stage],
            Operation::Stages { stages } => {
                let mut selected: Vec<Stage> = Vec::new();
                push_if_listed(&mut selected, stages, Stage::Detection);
                push_if_listed(&mut selected, stages, Stage::Ocr);
                push_if_listed(&mut selected, stages, Stage::Translation);
                push_if_listed(&mut selected, stages, Stage::Inpainting);
                proof {
                    assert(selected@ =~= listed_in_order(stages@));
                }
                selected
            },
        };
        proof {
            assert(stages@ =~= operation_stages(*self));
        }
        if stages.len() == 0 {
            Err(OperationError::NoStageSelected)
        } else {
            Ok(stages)
        }
    }
}

/// Every operation expands to stages in pipeline order, each at most once.
pub proof fn lemma_operation_stages_ordered(operation: Operation)
    ensures
        strictly_ordered(operation_stages(operation)),
{
    match operation {
        Operation::Stages { stages } => {
            let w = stages@;
            let d = keep_if_listed(w, Stage::Detection);
            let o = keep_if_listed(w, Stage::Ocr);
            let t = keep_if_listed(w, Stage::Translation);
            let n = keep_if_listed(w, Stage::Inpainting);
            let s = d + o + t + n;
            assert forall|i: int, j: int| 0 <= i < j < s.len() implies
                stage_rank(#[trigger] s[i]) < stage_rank(#[trigger] s[j]) by {
                assert(forall|k: int| 0 <= k < d.len() ==> stage_rank(#[trigger] d[k]) == 0);
                assert(forall|k: int| 0 <= k < o.len() ==> stage_rank(#[trigger] o[k]) == 1);
                assert(forall|k: int| 0 <= k < t.len() ==> stage_rank(#[trigger] t[k]) == 2);
                assert(forall|k: int| 0 <= k < n.len() ==> stage_rank(#[trigger] n[k]) == 3);
                assert(forall|k: int| 0 <= k < s.len() ==> stage_rank(#[trigger] s[k]) == (
                    if k < d.len() { 0int } else if k < d.len() + o.len() { 1int }
                    else if k < d.len() + o.len() + t.len() { 2int } else { 3int }));
            }
        },
        _ => {},
    }
}

/// An explicit stage list runs exactly the stages it lists.
pub proof fn lemma_listed_stages_exact(stages: Seq<Stage>, stage: Stage)
    ensures
        listed_in_order(stages).contains(stage) <==> stages.contains(stage),
{
    let d = keep_if_listed(stages, Stage::Detection);
    let o = keep_if_listed(stages, Stage::Ocr);
    let t = keep_if_listed(stages, Stage::Translation);
    let n = keep_if_listed(stages, Stage::Inpainting);
    let s = d + o + t + n;
    if stages.contains(stage) {
        match stage {
            Stage::Detection => { assert(s[0] == stage); },
            Stage::Ocr => { assert(s[d.len() as int] == stage); },
            Stage::Translation => { assert(s[(d.len() + o.len()) as int] == stage); },
            Stage::Inpainting => { assert(s[(d.len() + o.len() + t.len()) as int] == stage); },
        }
    }
    if s.contains(stage) {
        let k = choose|k: int| 0 <= k < s.len() && s[k] == stage;
        if k < d.len() {
            assert(s[k] == d[k]);
        } else if k < d.len() + o.len() {
            assert(s[k] == o[k - d.len()]);
        } else if k < d.len() + o.len() + t.len() {
            assert(s[k] == t[k - d.len() - o.len()]);
        } else {
            assert(s[k] == n[k - d.len() - o.len() - t.len()]);
        }
    }
}

/// Two stage lists with the same members select the same stages.
proof fn lemma_listed_depends_on_members(a: Seq<Stage>, b: Seq<Stage>)
    requires
        forall|stage: Stage| a.contains(stage) <==> b.contains(stage),
    ensures
        listed_in_order(a) == listed_in_order(b),
{
    assert(keep_if_listed(a, Stage::Detection) == keep_if_listed(b, Stage::Detection));
    assert(keep_if_listed(a, Stage::Ocr) == keep_if_listed(b, Stage::Ocr));
    assert(keep_if_listed(a, Stage::Translation) == keep_if_listed(b, Stage::Translation));
    assert(keep_if_listed(a, Stage::Inpainting) == keep_if_listed(b, Stage::Inpainting));
}

/// Expanding an operation, then running its expansion as an explicit stage
/// list, selects the same stages again.
pub proof fn lemma_expansion_is_stable(operation: Operation)
    ensures
        listed_in_order(operation_stages(operation)) == operation_stages(operation),
{
    let s = operation_stages(operation);
    let w = match operation {
        Operation::Stages { stages } => stages@,
        _ => s,
    };
    assert forall|stage: Stage| s.contains(stage) <==> w.contains(stage) by {
        match operation {
            Operation::Stages { stages } => lemma_listed_stages_exact(stages@, stage),
            _ => {},
        }
    }
    lemma_listed_depends_on_members(s, w);
    match operation {
        Operation::Stages { stages } => {},
        Operation::Full => {
            assert(s[0] == Stage::Detection && s[1] == Stage::Ocr && s[2] == Stage::Translation
                && s[3] == Stage::Inpainting);
            assert(listed_in_order(s) =~= s);
        },
        Operation::Only { stage } => {
            assert(s[0] == stage);
            assert(forall|x: Stage| s.contains(x) ==> x == stage);
            assert(listed_in_order(s) =~= s);
        },
        Operation::Through { stage } => {
            match stage {
                Stage::Detection => {
                    assert(s[0] == Stage::Detection);
                    assert(forall|x: Stage| s.contains(x) ==> x == Stage::Detection);
                },
                Stage::Ocr => {
                    assert(s[0] == Stage::Detection && s[1] == Stage::Ocr);
                    assert(forall|x: Stage| s.contains(x) ==> x == Stage::Detection || x == Stage::Ocr);
                },
                Stage::Translation => {
                    assert(s[0] == Stage::Detection && s[1] == Stage::Ocr && s[2] == Stage::Translation);
                    assert(!s.contains(Stage::Inpainting));
                },
                Stage::Inpainting => {
                    assert(s[0] == Stage::Detection && s[1] == Stage::Inpainting);
                    assert(forall|x: Stage| s.contains(x) ==> x == Stage::Detection || x == Stage::Inpainting);
                },
            }
            assert(listed_in_order(s) =~= s);
        },
    }
}

/// Shared flag that asks a running request to stop after its current step.
#[derive(Clone, Default)]
pub struct StopToken(Arc<AtomicBool>);

impl StopToken {
    /// Asks every holder of this token to stop.
    pub fn stop(&self) {
        self.0.store(true, std::sync::atomic::Ordering::Release);
    }

    /// Whether some holder of this token asked to stop.
    pub fn stopped(&self) -> bool {
        self.0.load(std::sync::atomic::Ordering::Acquire)
    }
}

} // verus!
