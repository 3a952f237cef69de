use vstd::prelude::*;

use crate::pipeline::stage::{Stage, all_stages};
use crate::text::{ascii_lowercase, ascii_lowered, chars_equal, chars_of};

verus! {

/// The longest pause between two attempts to start the runtime, in milliseconds.
pub const MAX_RETRY_DELAY_MS: u64 = 30_000;

/// The pause before the next attempt and the base delay after it, in
/// milliseconds: the base delay plus a jitter of `attempt * 137 mod 2^64`
/// modulo 251, then the base delay doubled up to 30 seconds.
pub open spec fn retry_schedule(attempt: u64, delay_ms: u64) -> (int, int) {
    let jitter = ((attempt as int * 137) % 0x1_0000_0000_0000_0000) % 251;
    let doubled = 2 * delay_ms;
    (delay_ms + jitter, if doubled < MAX_RETRY_DELAY_MS { doubled } else { MAX_RETRY_DELAY_MS as int })
}

/// The pause before retry `attempt` and the base delay for the next one.
pub fn retry_wait(attempt: u64, delay_ms: u64) -> (schedule: (u64, u64))
    requires
        delay_ms <= MAX_RETRY_DELAY_MS,
    ensures
        (schedule.0 as int, schedule.1 as int) == retry_schedule(attempt, delay_ms),
        schedule.1 <= MAX_RETRY_DELAY_MS,
        delay_ms <= schedule.1,
{
    let jitter = attempt.wrapping_mul(137) % 251;
    proof {
        assert(attempt.wrapping_mul(137) == (attempt as int * 137) % 0x1_0000_0000_0000_0000);
    }
    let doubled = delay_ms * 2;
    let next = if doubled < MAX_RETRY_DELAY_MS { doubled } else { MAX_RETRY_DELAY_MS };
    (delay_ms + jitter, next)
}

/// Starting from one second, the base delay after `retries` retries.
pub open spec fn delay_after(retries: nat) -> int
    decreases retries,
{
    if retries == 0 {
        1000
    } else {
        retry_schedule(0, delay_after((retries - 1) as nat) as u64).1
    }
}

/// The delay grows by doubling from one second and settles at 30 seconds:
/// after `retries` retries it is `min(1000 * 2^retries, 30000)` milliseconds.
pub proof fn lemma_delay_doubles_to_cap(retries: nat)
    ensures
        delay_after(retries) == if retries >= 5 {
            30_000
        } else {
            1000 * vstd::arithmetic::power2::pow2(retries)
        },
    decreases retries,
{
    vstd::arithmetic::power2::lemma2_to64();
    if retries > 0 {
        lemma_delay_doubles_to_cap((retries - 1) as nat);
    }
}

/// A slot for one loaded model: empty until a model is loaded into it, which
/// then stays until it is unloaded.
pub struct ModelSlot<M> {
    model: Option<M>,
}

impl<M> ModelSlot<M> {
    /// What the slot holds.
    pub closed spec fn held(&self) -> Option<M> {
        self.model
    }

    /// An empty slot.
    pub fn new() -> (slot: Self)
        ensures
            slot.held() is None,
    {
        ModelSlot { model: None }
    }

    /// Whether a model must be loaded before use.
    pub fn needs_load(&self) -> (needed: bool)
        ensures
            needed == self.held() is None,
    {
        self.model.is_none()
    }

    /// Keeps a freshly loaded model, unless one was loaded meanwhile, which
    /// then stays.
    pub fn fill(&mut self, model: M)
        ensures
            final(self).held() == match old(self).held() {
                Some(kept) => Some(kept),
                None => Some(model),
            },
    {
        if self.model.is_none() {
            self.model = Some(model);
        }
    }

    /// The loaded model, if any.
    pub fn get(&self) -> (model: Option<&M>)
        ensures
            match model {
                Some(m) => self.held() == Some(*m),
                None => self.held() is None,
            },
    {
        match &self.model {
            Some(m) => Some(m),
            None => None,
        }
    }

    /// Drops the loaded model; tells whether there was one.
    pub fn unload(&mut self) -> (unloaded: bool)
        ensures
            unloaded == old(self).held() is Some,
            final(self).held() is None,
    {
        let had = self.model.is_some();
        self.model = None;
        had
    }
}

/// The stages whose models are unloaded when `requested` needs room: every
/// other stage, in pipeline order.
pub fn other_stages(requested: Stage) -> (others: Vec<Stage>)
    ensures
        others@ == all_stages().filter(|stage: Stage| stage != requested),
{
    let all = Stage::all();
    let mut others: Vec<Stage> = Vec::new();
    let mut k: usize = 0;
    while k < all.len()
        invariant
            all@ == all_stages(),
            k <= all@.len(),
            others@ == all_stages().take(k as int).filter(|stage: Stage| stage != requested),
        decreases all@.len() - k,
    {
        proof {
            assert(all_stages().take(k + 1).drop_last() =~= all_stages().take(k as int));
            reveal(Seq::filter);
        }
        if all[k] != requested {
            others.push(all[k]);
        }
        k = k + 1;
    }
    proof {
        assert(all_stages().take(4) =~= all_stages());
    }
    others
}

/// The model slots of the four stages, one model type each.
pub struct StageSlots<D, O, T, I> {
    pub detection: ModelSlot<D>,
    pub ocr: ModelSlot<O>,
    pub translation: ModelSlot<T>,
    pub inpainting: ModelSlot<I>,
}

impl<D, O, T, I> StageSlots<D, O, T, I> {
    /// Whether the slot of `stage` holds a model.
    pub open spec fn loaded(&self, stage: Stage) -> bool {
        match stage {
            Stage::Detection => self.detection.held() is Some,
            Stage::Ocr => self.ocr.held() is Some,
            Stage::Translation => self.translation.held() is Some,
            Stage::Inpainting => self.inpainting.held() is Some,
        }
    }

    /// Unloads the model of `stage`; tells whether there was one. The other
    /// slots stay as they were.
    pub fn unload(&mut self, stage: Stage) -> (unloaded: bool)
        ensures
            unloaded == old(self).loaded(stage),
            !final(self).loaded(stage),
            stage != Stage::Detection ==> final(self).detection == old(self).detection,
            stage != Stage::Ocr ==> final(self).ocr == old(self).ocr,
            stage != Stage::Translation ==> final(self).translation == old(self).translation,
            stage != Stage::Inpainting ==> final(self).inpainting == old(self).inpainting,
    {
        match stage {
            Stage::Detection => self.detection.unload(),
            Stage::Ocr => self.ocr.unload(),
            Stage::Translation => self.translation.unload(),
            Stage::Inpainting => self.inpainting.unload(),
        }
    }

    /// Makes room for `requested` by unloading every other stage's model;
    /// tells whether any was loaded. The requested stage's slot stays.
    pub fn unload_other_models(&mut self, requested: Stage) -> (unloaded: bool)
        ensures
            unloaded == exists|stage: Stage| stage != requested && #[trigger] old(self).loaded(stage),
            forall|stage: Stage| stage != requested ==> !#[trigger] final(self).loaded(stage),
            requested == Stage::Detection ==> final(self).detection == old(self).detection,
            requested == Stage::Ocr ==> final(self).ocr == old(self).ocr,
            requested == Stage::Translation ==> final(self).translation == old(self).translation,
            requested == Stage::Inpainting ==> final(self).inpainting == old(self).inpainting,
    {
        let others = other_stages(requested);
        let ghost before = *self;
        let mut unloaded = false;
        let mut k: usize = 0;
        proof {
            lemma_others_listed(requested);
        }
        while k < others.len()
            invariant
                others@ == all_stages().filter(|stage: Stage| stage != requested),
                k <= others@.len(),
                forall|j: int| 0 <= j < others@.len() ==> #[trigger] others@[j] != requested,
                forall|stage: Stage| stage != requested ==> #[trigger] others@.contains(stage),
                unloaded == exists|j: int| 0 <= j < k && #[trigger] before.loaded(others@[j]),
                forall|j: int| 0 <= j < k ==> !self.loaded(#[trigger] others@[j]),
                forall|j: int| k <= j < others@.len() ==> self.loaded(#[trigger] others@[j]) == before.loaded(others@[j]),
                requested == Stage::Detection ==> self.detection == before.detection,
                requested == Stage::Ocr ==> self.ocr == before.ocr,
                requested == Stage::Translation ==> self.translation == before.translation,
                requested == Stage::Inpainting ==> self.inpainting == before.inpainting,
                forall|a: int, b: int| 0 <= a < b < others@.len() ==> others@[a] != others@[b],
            decreases others@.len() - k,
        {
            let stage = others[k];
            let freed = self.unload(stage);
            if freed {
                unloaded = true;
            }
            proof {
                assert forall|j: int| k < j < others@.len() implies self.loaded(#[trigger] others@[j]) == before.loaded(
                    others@[j],
                ) by {
                    assert(others@[j] != stage);
                }
                assert(before.loaded(others@[k as int]) == freed);
            }
            k = k + 1;
        }
        proof {
            assert forall|stage: Stage| stage != requested implies !#[trigger] self.loaded(stage) by {
                assert(others@.contains(stage));
                let j = choose|j: int| 0 <= j < others@.len() && others@[j] == stage;
                assert(!self.loaded(others@[j]));
            }
            if exists|stage: Stage| stage != requested && #[trigger] before.loaded(stage) {
                let stage = choose|stage: Stage| stage != requested && #[trigger] before.loaded(stage);
                assert(others@.contains(stage));
                let j = choose|j: int| 0 <= j < others@.len() && others@[j] == stage;
                assert(before.loaded(others@[j]));
                assert(unloaded);
            }
            if unloaded {
                let j = choose|j: int| 0 <= j < k && #[trigger] before.loaded(others@[j]);
                assert(others@[j] != requested && before.loaded(others@[j]));
            }
        }
        unloaded
    }
}

/// The other stages are listed once each, all but the requested one.
proof fn lemma_others_listed(requested: Stage)
    ensures
        ({
            let others = all_stages().filter(|stage: Stage| stage != requested);
            &&& others.len() == 3
            &&& forall|j: int| 0 <= j < others.len() ==> #[trigger] others[j] != requested
            &&& forall|stage: Stage| stage != requested ==> #[trigger] others.contains(stage)
            &&& forall|a: int, b: int| 0 <= a < b < others.len() ==> others[a] != others[b]
        }),
{
    reveal_with_fuel(Seq::filter, 5);
    let others = all_stages().filter(|stage: Stage| stage != requested);
    match requested {
        Stage::Detection => {
            assert(others =~= seq![Stage::Ocr, Stage::Translation, Stage::Inpainting]);
        },
        Stage::Ocr => {
            assert(others =~= seq![Stage::Detection, Stage::Translation, Stage::Inpainting]);
        },
        Stage::Translation => {
            assert(others =~= seq![Stage::Detection, Stage::Ocr, Stage::Inpainting]);
        },
        Stage::Inpainting => {
            assert(others =~= seq![Stage::Detection, Stage::Ocr, Stage::Translation]);
        },
    }
    assert forall|stage: Stage| stage != requested implies #[trigger] others.contains(stage) by {
        match stage {
            Stage::Detection => {
                assert(others[0] == stage);
            },
            Stage::Ocr => {
                if requested == Stage::Detection {
                    assert(others[0] == stage);
                } else {
                    assert(others[1] == stage);
                }
            },
            Stage::Translation => {
                if requested == Stage::Inpainting {
                    assert(others[2] == stage);
                } else {
                    assert(others[1] == stage || others[2] == stage);
                }
            },
            Stage::Inpainting => {
                assert(others[2] == stage);
            },
        }
    }
}

/// The media type an input file is stored under, by its extension, ignoring
/// ASCII case: JPEG for `jpg` and `jpeg`, WebP for `webp`, PNG otherwise.
pub open spec fn media_type_of(extension: Option<Seq<char>>) -> Seq<char> {
    match extension {
        Some(ext) => if ascii_lowered(ext) == "jpg"@ || ascii_lowered(ext) == "jpeg"@ {
            "image/jpeg"@
        } else if ascii_lowered(ext) == "webp"@ {
            "image/webp"@
        } else {
            "image/png"@
        },
        None => "image/png"@,
    }
}

/// The media type an input file is stored under, by its extension.
pub fn image_media_type(extension: Option<&str>) -> (media_type: &'static str)
    ensures
        media_type@ == media_type_of(match extension {
            Some(ext) => Some(ext@),
            None => None,
        }),
{
    match extension {
        None => "image/png",
        Some(ext) => {
            let lowered = ascii_lowercase(&chars_of(ext));
            let jpg = chars_of("jpg");
            let jpeg = chars_of("jpeg");
            let webp = chars_of("webp");
            if chars_equal(&lowered, jpg.as_slice()) || chars_equal(&lowered, jpeg.as_slice()) {
                "image/jpeg"
            } else if chars_equal(&lowered, webp.as_slice()) {
                "image/webp"
            } else {
                "image/png"
            }
        },
    }
}

} // verus!
