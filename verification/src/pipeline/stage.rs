use vstd::prelude::*;

use crate::text::{ascii_lowered, ascii_lowercase, chars_equal, chars_of};

verus! {

/// One phase of the page pipeline, in execution order.
#[derive(Clone, Copy, Debug, PartialEq, Eq, Hash, PartialOrd, Ord, Structural)]
pub enum Stage {
    Detection,
    Ocr,
    Translation,
    Inpainting,
}

/// Position of a stage in the fixed execution order.
pub open spec fn stage_rank(stage: Stage) -> int {
    match stage {
        Stage::Detection => 0,
        Stage::Ocr => 1,
        Stage::Translation => 2,
        Stage::Inpainting => 3,
    }
}

/// Every stage, in execution order.
pub open spec fn all_stages() -> Seq<Stage> {
    seq![Stage::Detection, Stage::Ocr, Stage::Translation, Stage::Inpainting]
}

/// The snake-case name a stage is written and read by.
pub open spec fn stage_name(stage: Stage) -> Seq<char> {
    match stage {
        Stage::Detection => seq!['d', 'e', 't', 'e', 'c', 't', 'i', 'o', 'n'],
        Stage::Ocr => seq!['o', 'c', 'r'],
        Stage::Translation => seq!['t', 'r', 'a', 'n', 's', 'l', 'a', 't', 'i', 'o', 'n'],
        Stage::Inpainting => seq!['i', 'n', 'p', 'a', 'i', 'n', 't', 'i', 'n', 'g'],
    }
}

/// Reading a stage's name back, in any ASCII case, gives that stage, and no
/// other stage's name reads as it.
pub proof fn lemma_stage_name_reads_back(stage: Stage, other: Stage)
    ensures
        ascii_lowered(stage_name(stage)) == stage_name(other) <==> stage == other,
{
    assert(ascii_lowered(stage_name(stage)) =~= stage_name(stage));
    if stage != other {
        let a = stage_name(stage);
        let b = stage_name(other);
        assert(a.len() != b.len() || a[0] != b[0]);
    }
}

impl Stage {
    pub const ALL: [Stage; 4] = [Stage::Detection, Stage::Ocr, Stage::Translation, Stage::Inpainting];

    /// The ordered list of every stage.
    pub fn all() -> (stages: Vec<Stage>)
        ensures
            stages@ == all_stages(),
    {
        let stages = vec![Stage::Detection, Stage::Ocr, Stage::Translation, Stage::Inpainting];
        proof {
            assert(stages@ =~= all_stages());
        }
        stages
    }

    /// The stage's snake-case name.
    pub fn name(&self) -> (name: &'static str)
        ensures
            name@ == stage_name(*self),
    {
        match self {
            Stage::Detection => {
                proof {
                    reveal_strlit("detection");
                }
                "detection"
            },
            Stage::Ocr => {
                proof {
                    reveal_strlit("ocr");
                }
                "ocr"
            },
            Stage::Translation => {
                proof {
                    reveal_strlit("translation");
                }
                "translation"
            },
            Stage::Inpainting => {
                proof {
                    reveal_strlit("inpainting");
                }
                "inpainting"
            },
        }
    }

    /// The stage whose snake-case name `text` is, ignoring ASCII case.
    pub fn parse(text: &str) -> (stage: Option<Stage>)
        ensures
            match stage {
                Some(stage) => ascii_lowered(text@) == stage_name(stage),
                None => forall|any: Stage| ascii_lowered(text@) != stage_name(any),
            },
    {
        let chars = ascii_lowercase(&chars_of(text));
        let candidates = Stage::all();
        let mut i: usize = 0;
        while i < candidates.len()
            invariant
                chars@ == ascii_lowered(text@),
                candidates@ == all_stages(),
                i <= 4,
                forall|j: int| 0 <= j < i ==> ascii_lowered(text@) != stage_name(#[trigger] all_stages()[j]),
            decreases 4 - i,
        {
            let candidate = candidates[i];
            let name = chars_of(candidate.name());
            if chars_equal(&chars, name.as_slice()) {
                return Some(candidate);
            }
            i = i + 1;
        }
        proof {
            assert forall|any: Stage| ascii_lowered(text@) != stage_name(any) by {
                let k: int = match any {
                    Stage::Detection => 0,
                    Stage::Ocr => 1,
                    Stage::Translation => 2,
                    Stage::Inpainting => 3,
                };
                assert(all_stages()[k] == any);
            }
        }
        None
    }
}

} // verus!
