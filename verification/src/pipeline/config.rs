use vstd::prelude::*;

verus! {

/// Options of the FLUX.2 [klein] inpainting model.
#[derive(Clone, Debug, PartialEq, Eq)]
pub struct Flux2KleinConfig {
    pub prompt: String,
}

/// Options of the RoRem mixed inpainting model.
#[derive(Clone, Debug, PartialEq, Eq)]
pub struct RoremMixedConfig {
    pub prompt: String,
    pub negative_prompt: String,
}

impl Default for Flux2KleinConfig {
    fn default() -> (config: Self)
        ensures
            config.prompt@ == Seq::<char>::empty(),
    {
        Flux2KleinConfig { prompt: String::new() }
    }
}

impl Default for RoremMixedConfig {
    fn default() -> (config: Self)
        ensures
            config.prompt@ == Seq::<char>::empty(),
            config.negative_prompt@ == Seq::<char>::empty(),
    {
        RoremMixedConfig { prompt: String::new(), negative_prompt: String::new() }
    }
}

/// The text recognition model of a pipeline.
#[derive(Clone, Copy, Debug, PartialEq, Eq, Structural)]
pub enum OcrModel {
    PaddleOcrVl1_6,
    MangaOcr,
    BaberuOcr,
    HayaiOcr,
}

/// The inpainting model of a pipeline, with the options of the generative ones.
#[derive(Clone, Debug, PartialEq, Eq)]
pub enum InpaintingModel {
    LaMa {},
    AotInpainting {},
    Flux2Klein(Flux2KleinConfig),
    RoremMixed(RoremMixedConfig),
}

/// The saved option profiles of the inpainting models that have options,
/// kept whichever model is active.
#[derive(Clone, Debug, Default, PartialEq, Eq)]
pub struct InpaintingProfiles {
    pub flux2_klein: Option<Flux2KleinConfig>,
    pub rorem_mixed: Option<RoremMixedConfig>,
}

/// Why a saved model selection cannot be read.
#[derive(Clone, Copy, Debug, PartialEq, Eq, Structural)]
pub enum ConfigError {
    /// The OCR model name is none of the supported ones.
    UnsupportedOcrModel,
    /// The inpainting model name is none of the supported ones.
    UnsupportedInpaintingModel,
}

/// The name an OCR model is saved and selected by.
pub open spec fn ocr_model_name(model: OcrModel) -> Seq<char> {
    match model {
        OcrModel::PaddleOcrVl1_6 => seq!['p', 'a', 'd', 'd', 'l', 'e', 'o', 'c', 'r', '-', 'v', 'l', '-', '1', '.', '6'],
        OcrModel::MangaOcr => seq!['m', 'a', 'n', 'g', 'a', '-', 'o', 'c', 'r'],
        OcrModel::BaberuOcr => seq!['b', 'a', 'b', 'e', 'r', 'u', '-', 'o', 'c', 'r'],
        OcrModel::HayaiOcr => seq!['h', 'a', 'y', 'a', 'i', '-', 'o', 'c', 'r'],
    }
}

pub open spec fn lama_name() -> Seq<char> {
    seq!['l', 'a', 'm', 'a']
}

pub open spec fn aot_inpainting_name() -> Seq<char> {
    seq!['a', 'o', 't', '-', 'i', 'n', 'p', 'a', 'i', 'n', 't', 'i', 'n', 'g']
}

pub open spec fn flux2_klein_name() -> Seq<char> {
    seq!['f', 'l', 'u', 'x', '2', '-', 'k', 'l', 'e', 'i', 'n']
}

pub open spec fn rorem_mixed_name() -> Seq<char> {
    seq!['r', 'o', 'r', 'e', 'm', '-', 'm', 'i', 'x', 'e', 'd']
}

/// The name an inpainting model is saved and selected by.
pub open spec fn inpainting_model_name(model: InpaintingModel) -> Seq<char> {
    match model {
        InpaintingModel::LaMa {} => lama_name(),
        InpaintingModel::AotInpainting {} => aot_inpainting_name(),
        InpaintingModel::Flux2Klein(_) => flux2_klein_name(),
        InpaintingModel::RoremMixed(_) => rorem_mixed_name(),
    }
}

/// Whether `name` is the name of a supported inpainting model.
pub open spec fn is_inpainting_model_name(name: Seq<char>) -> bool {
    ||| name == lama_name()
    ||| name == aot_inpainting_name()
    ||| name == flux2_klein_name()
    ||| name == rorem_mixed_name()
}

/// Whether reading the selection `name` against the saved `profiles` gives
/// `model`: a generative model takes its saved profile, or empty prompts when
/// none is saved.
pub open spec fn reads_as(name: Seq<char>, profiles: InpaintingProfiles, model: InpaintingModel) -> bool {
    &&& name == inpainting_model_name(model)
    &&& match model {
        InpaintingModel::Flux2Klein(config) => match profiles.flux2_klein {
            Some(saved) => config == saved,
            None => config.prompt@ == Seq::<char>::empty(),
        },
        InpaintingModel::RoremMixed(config) => match profiles.rorem_mixed {
            Some(saved) => config == saved,
            None => config.prompt@ == Seq::<char>::empty()
                && config.negative_prompt@ == Seq::<char>::empty(),
        },
        _ => true,
    }
}

/// The model a pipeline runs: the active model, with its saved profile in
/// place of its own options where one is saved.
pub open spec fn resolved(active: InpaintingModel, profiles: InpaintingProfiles) -> InpaintingModel {
    match active {
        InpaintingModel::Flux2Klein(config) => InpaintingModel::Flux2Klein(
            match profiles.flux2_klein {
                Some(saved) => saved,
                None => config,
            },
        ),
        InpaintingModel::RoremMixed(config) => InpaintingModel::RoremMixed(
            match profiles.rorem_mixed {
                Some(saved) => saved,
                None => config,
            },
        ),
        other => other,
    }
}

/// The profiles saved with a configuration: those given, with the active
/// model's own options added where no profile of it is saved yet.
pub open spec fn saved_profiles(active: InpaintingModel, profiles: InpaintingProfiles) -> InpaintingProfiles {
    match active {
        InpaintingModel::Flux2Klein(config) => InpaintingProfiles {
            flux2_klein: Some(
                match profiles.flux2_klein {
                    Some(saved) => saved,
                    None => config,
                },
            ),
            ..profiles
        },
        InpaintingModel::RoremMixed(config) => InpaintingProfiles {
            rorem_mixed: Some(
                match profiles.rorem_mixed {
                    Some(saved) => saved,
                    None => config,
                },
            ),
            ..profiles
        },
        _ => profiles,
    }
}

/// Compares two character sequences.
fn same_text(a: &str, b: &str) -> (result: bool)
    ensures
        result == (a@ == b@),
{
    let a_chars = crate::text::chars_of(a);
    let b_chars = crate::text::chars_of(b);
    crate::text::chars_equal(&a_chars, b_chars.as_slice())
}

impl Flux2KleinConfig {
    fn copied(&self) -> (config: Self)
        ensures
            config == *self,
    {
        Flux2KleinConfig { prompt: self.prompt.clone() }
    }
}

impl RoremMixedConfig {
    fn copied(&self) -> (config: Self)
        ensures
            config == *self,
    {
        RoremMixedConfig { prompt: self.prompt.clone(), negative_prompt: self.negative_prompt.clone() }
    }
}

impl OcrModel {
    /// The name the model is saved and selected by.
    pub fn name(&self) -> (name: &'static str)
        ensures
            name@ == ocr_model_name(*self),
    {
        match self {
            OcrModel::PaddleOcrVl1_6 => {
                proof {
                    reveal_strlit("paddleocr-vl-1.6");
                }
                "paddleocr-vl-1.6"
            },
            OcrModel::MangaOcr => {
                proof {
                    reveal_strlit("manga-ocr");
                }
                "manga-ocr"
            },
            OcrModel::BaberuOcr => {
                proof {
                    reveal_strlit("baberu-ocr");
                }
                "baberu-ocr"
            },
            OcrModel::HayaiOcr => {
                proof {
                    reveal_strlit("hayai-ocr");
                }
                "hayai-ocr"
            },
        }
    }

    /// The model selected by `name`.
    pub fn from_name(name: &str) -> (model: Result<OcrModel, ConfigError>)
        ensures
            match model {
                Ok(model) => name@ == ocr_model_name(model),
                Err(error) => error == ConfigError::UnsupportedOcrModel
                    && forall|any: OcrModel| name@ != ocr_model_name(any),
            },
    {
        let models = [OcrModel::PaddleOcrVl1_6, OcrModel::MangaOcr, OcrModel::BaberuOcr, OcrModel::HayaiOcr];
        let mut i: usize = 0;
        while i < 4
            invariant
                models@ == seq![OcrModel::PaddleOcrVl1_6, OcrModel::MangaOcr, OcrModel::BaberuOcr, OcrModel::HayaiOcr],
                i <= 4,
                forall|j: int| 0 <= j < i ==> name@ != ocr_model_name(#[trigger] models@[j]),
            decreases 4 - i,
        {
            let model = models[i];
            if same_text(name, model.name()) {
                return Ok(model);
            }
            i = i + 1;
        }
        proof {
            assert forall|any: OcrModel| name@ != ocr_model_name(any) by {
                let k: int = match any {
                    OcrModel::PaddleOcrVl1_6 => 0,
                    OcrModel::MangaOcr => 1,
                    OcrModel::BaberuOcr => 2,
                    OcrModel::HayaiOcr => 3,
                };
                assert(models@[k] == any);
            }
        }
        Err(ConfigError::UnsupportedOcrModel)
    }
}

impl InpaintingModel {
    /// The name the model is saved and selected by.
    pub fn name(&self) -> (name: &'static str)
        ensures
            name@ == inpainting_model_name(*self),
    {
        match self {
            InpaintingModel::LaMa {} => {
                proof {
                    reveal_strlit("lama");
                }
                "lama"
            },
            InpaintingModel::AotInpainting {} => {
                proof {
                    reveal_strlit("aot-inpainting");
                }
                "aot-inpainting"
            },
            InpaintingModel::Flux2Klein(_) => {
                proof {
                    reveal_strlit("flux2-klein");
                }
                "flux2-klein"
            },
            InpaintingModel::RoremMixed(_) => {
                proof {
                    reveal_strlit("rorem-mixed");
                }
                "rorem-mixed"
            },
        }
    }

    /// Reads the model selected by `name`, taking a generative model's
    /// options from its saved profile, or empty prompts when none is saved.
    pub fn from_name(name: &str, profiles: &InpaintingProfiles) -> (model: Result<InpaintingModel, ConfigError>)
        ensures
            match model {
                Ok(model) => reads_as(name@, *profiles, model),
                Err(error) => error == ConfigError::UnsupportedInpaintingModel
                    && !is_inpainting_model_name(name@),
            },
    {
        proof {
            reveal_strlit("lama");
            reveal_strlit("aot-inpainting");
            reveal_strlit("flux2-klein");
            reveal_strlit("rorem-mixed");
            assert("lama"@ =~= lama_name());
            assert("aot-inpainting"@ =~= aot_inpainting_name());
            assert("flux2-klein"@ =~= flux2_klein_name());
            assert("rorem-mixed"@ =~= rorem_mixed_name());
        }
        if same_text(name, "lama") {
            Ok(InpaintingModel::LaMa {})
        } else if same_text(name, "aot-inpainting") {
            Ok(InpaintingModel::AotInpainting {})
        } else if same_text(name, "flux2-klein") {
            let config = match &profiles.flux2_klein {
                Some(saved) => saved.copied(),
                None => Flux2KleinConfig::default(),
            };
            Ok(InpaintingModel::Flux2Klein(config))
        } else if same_text(name, "rorem-mixed") {
            let config = match &profiles.rorem_mixed {
                Some(saved) => saved.copied(),
                None => RoremMixedConfig::default(),
            };
            Ok(InpaintingModel::RoremMixed(config))
        } else {
            Err(ConfigError::UnsupportedInpaintingModel)
        }
    }

    fn copied(&self) -> (model: Self)
        ensures
            model == *self,
    {
        match self {
            InpaintingModel::LaMa {} => InpaintingModel::LaMa {},
            InpaintingModel::AotInpainting {} => InpaintingModel::AotInpainting {},
            InpaintingModel::Flux2Klein(config) => InpaintingModel::Flux2Klein(config.copied()),
            InpaintingModel::RoremMixed(config) => InpaintingModel::RoremMixed(config.copied()),
        }
    }

    /// The model a pipeline with this active model runs: a generative model
    /// takes its saved profile over its own options where one is saved.
    pub fn resolve(&self, profiles: &InpaintingProfiles) -> (model: InpaintingModel)
        ensures
            model == resolved(*self, *profiles),
    {
        match self {
            InpaintingModel::Flux2Klein(config) => InpaintingModel::Flux2Klein(
                match &profiles.flux2_klein {
                    Some(saved) => saved.copied(),
                    None => config.copied(),
                },
            ),
            InpaintingModel::RoremMixed(config) => InpaintingModel::RoremMixed(
                match &profiles.rorem_mixed {
                    Some(saved) => saved.copied(),
                    None => config.copied(),
                },
            ),
            other => other.copied(),
        }
    }

    /// The profiles to save with this active model: `profiles`, with this
    /// model's options added where no profile of it is saved yet.
    pub fn save_profile(&self, profiles: &InpaintingProfiles) -> (saved: InpaintingProfiles)
        ensures
            saved == saved_profiles(*self, *profiles),
    {
        let flux2_klein = match &profiles.flux2_klein {
            Some(saved) => Some(saved.copied()),
            None => match self {
                InpaintingModel::Flux2Klein(config) => Some(config.copied()),
                _ => None,
            },
        };
        let rorem_mixed = match &profiles.rorem_mixed {
            Some(saved) => Some(saved.copied()),
            None => match self {
                InpaintingModel::RoremMixed(config) => Some(config.copied()),
                _ => None,
            },
        };
        InpaintingProfiles { flux2_klein, rorem_mixed }
    }
}

/// No two OCR models share a name, so reading a model's name gives the model.
pub proof fn lemma_ocr_name_reads_back(model: OcrModel, other: OcrModel)
    ensures
        ocr_model_name(model) == ocr_model_name(other) <==> model == other,
{
    if model != other {
        let a = ocr_model_name(model);
        let b = ocr_model_name(other);
        assert(a.len() != b.len() || a[0] != b[0]);
    }
}

/// A configuration written out and read back runs the same inpainting model
/// with the same options: the active model's name and the saved profiles,
/// read together, resolve to what the configuration resolved to.
pub proof fn lemma_saved_selection_reads_back(
    active: InpaintingModel,
    profiles: InpaintingProfiles,
    read: InpaintingModel,
)
    requires
        reads_as(inpainting_model_name(active), saved_profiles(active, profiles), read),
    ensures
        resolved(read, saved_profiles(active, profiles)) == resolved(active, profiles),
{
    let name = inpainting_model_name(active);
    let a = lama_name();
    let b = aot_inpainting_name();
    let c = flux2_klein_name();
    let d = rorem_mixed_name();
    assert(a != b && a != c && a != d && b != c && b != d && c != d) by {
        assert(a.len() != b.len() && a.len() != c.len() && a.len() != d.len());
        assert(b.len() != c.len() && b.len() != d.len());
        assert(c[0] != d[0]);
    }
}

/// Resolving a resolved model again changes nothing.
pub proof fn lemma_resolve_is_idempotent(active: InpaintingModel, profiles: InpaintingProfiles)
    ensures
        resolved(resolved(active, profiles), profiles) == resolved(active, profiles),
{
}

} // verus!
