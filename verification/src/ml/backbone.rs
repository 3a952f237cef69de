use vstd::prelude::*;

use crate::text::{
    chars_equal, chars_of, decimal, decimal_chars, lemma_decimal_reads_back, parse_unsigned, string_from_chars,
    unsigned_value,
};

verus! {

broadcast use vstd::seq_lib::group_to_multiset_ensures;

/// A stride or kernel extent given once for both axes or per axis.
#[derive(Clone, Copy, Debug, PartialEq, Eq)]
pub enum Spatial {
    Scalar(i64),
    Pair([i64; 2]),
}

impl Spatial {
    /// The extent per axis.
    pub fn pair(self) -> (pair: [i64; 2])
        ensures
            pair@ == match self {
                Spatial::Scalar(value) => seq![value, value],
                Spatial::Pair(value) => value@,
            },
    {
        match self {
            Spatial::Scalar(value) => [value, value],
            Spatial::Pair(value) => value,
        }
    }
}

/// One block of a PP-LCNetV4 stage.
#[derive(Clone, Copy, Debug, PartialEq, Eq)]
pub struct BlockConfig {
    pub kernel_size: i64,
    pub in_channels: i64,
    pub out_channels: i64,
    pub stride: Spatial,
    pub use_squeeze_excitation: bool,
}

pub open spec fn stem_name() -> Seq<char> {
    seq!['s', 't', 'e', 'm']
}

pub open spec fn stage_prefix() -> Seq<char> {
    seq!['s', 't', 'a', 'g', 'e']
}

/// The name of output stage `index` of a backbone with `stage_count`
/// stages: `stem` for 0, `stage<index>` up to the stage count, none beyond.
pub open spec fn stage_label(index: int, stage_count: int) -> Option<Seq<char>> {
    if index == 0 {
        Some(stem_name())
    } else if 0 < index <= stage_count {
        Some(stage_prefix() + decimal(index as nat))
    } else {
        None
    }
}

/// The output stage that `name` names in a backbone with `stage_count`
/// stages: 0 for `stem`, the number after `stage` where it reads (an
/// optional `+`, then digits) and lies in `1..=stage_count`.
pub open spec fn stage_number(name: Seq<char>, stage_count: int) -> Option<int> {
    if name == stem_name() {
        Some(0)
    } else if name.len() >= 5 && name.take(5) == stage_prefix() {
        match unsigned_value(name.skip(5), 10) {
            Some(n) => if 0 < n <= stage_count && n <= usize::MAX {
                Some(n)
            } else {
                None
            },
            None => None,
        }
    } else {
        None
    }
}

/// The name of output stage `index`.
pub fn stage_name(index: usize, stage_count: usize) -> (name: Option<String>)
    ensures
        match name {
            Some(name) => stage_label(index as int, stage_count as int) == Some(name@),
            None => stage_label(index as int, stage_count as int) is None,
        },
{
    if index == 0 {
        proof {
            reveal_strlit("stem");
            assert("stem"@ =~= stem_name());
        }
        Some(String::from_str("stem"))
    } else if index <= stage_count {
        let mut chars = chars_of("stage");
        proof {
            reveal_strlit("stage");
            assert(chars@ =~= stage_prefix());
        }
        let digits = decimal_chars(index as u64);
        let mut k: usize = 0;
        let ghost start = chars@;
        while k < digits.len()
            invariant
                k <= digits@.len(),
                chars@ == start + digits@.take(k as int),
            decreases digits@.len() - k,
        {
            chars.push(digits[k]);
            proof {
                assert(chars@ =~= start + digits@.take(k + 1));
            }
            k = k + 1;
        }
        proof {
            assert(digits@.take(digits@.len() as int) =~= digits@);
        }
        Some(string_from_chars(&chars))
    } else {
        None
    }
}

/// The output stage that `name` names.
pub fn stage_index(name: &str, stage_count: usize) -> (index: Option<usize>)
    ensures
        match index {
            Some(i) => stage_number(name@, stage_count as int) == Some(i as int),
            None => stage_number(name@, stage_count as int) is None,
        },
{
    let chars = chars_of(name);
    let stem = chars_of("stem");
    proof {
        reveal_strlit("stem");
        assert(stem@ =~= stem_name());
    }
    if chars_equal(&chars, stem.as_slice()) {
        return Some(0);
    }
    let prefix = chars_of("stage");
    proof {
        reveal_strlit("stage");
        assert(prefix@ =~= stage_prefix());
    }
    if chars.len() < 5 {
        return None;
    }
    let mut head: Vec<char> = Vec::new();
    let mut rest: Vec<char> = Vec::new();
    let mut k: usize = 0;
    while k < chars.len()
        invariant
            chars@ == name@,
            chars@.len() >= 5,
            k <= chars@.len(),
            head@ == chars@.take(if k < 5 { k as int } else { 5 }),
            rest@ == if k < 5 { Seq::<char>::empty() } else { chars@.subrange(5, k as int) },
        decreases chars@.len() - k,
    {
        if k < 5 {
            head.push(chars[k]);
        } else {
            rest.push(chars[k]);
        }
        proof {
            if k < 5 {
                assert(head@ =~= chars@.take(k + 1));
            } else {
                assert(rest@ =~= chars@.subrange(5, k + 1));
            }
        }
        k = k + 1;
    }
    proof {
        assert(rest@ =~= name@.skip(5));
    }
    if !chars_equal(&head, prefix.as_slice()) {
        return None;
    }
    match parse_unsigned(&rest, 10, usize::MAX as u64) {
        Some(value) => {
            if value > 0 && value <= stage_count as u64 {
                Some(value as usize)
            } else {
                None
            }
        },
        None => None,
    }
}

/// Naming an output stage and reading the name back gives the stage.
pub proof fn lemma_stage_name_reads_back(index: int, stage_count: int)
    requires
        0 <= index <= stage_count <= usize::MAX,
    ensures
        stage_label(index, stage_count) matches Some(name) && stage_number(name, stage_count) == Some(index),
{
    if index > 0 {
        let name = stage_prefix() + decimal(index as nat);
        lemma_decimal_reads_back(index as nat);
        assert(name.take(5) =~= stage_prefix());
        assert(name.skip(5) =~= decimal(index as nat));
        assert(name != stem_name()) by {
            if name.len() == 4 {
                assert(name.len() >= 5);
            }
        }
    }
}

/// The names of output stages `indices`, or none where one index names no stage.
pub open spec fn labels_of(indices: Seq<usize>, stage_count: int) -> Option<Seq<Seq<char>>>
    decreases indices.len(),
{
    if indices.len() == 0 {
        Some(Seq::empty())
    } else {
        match (labels_of(indices.drop_last(), stage_count), stage_label(indices.last() as int, stage_count)) {
            (Some(names), Some(name)) => Some(names.push(name)),
            _ => None,
        }
    }
}

/// The output stages that `names` name, or none where one names no stage.
pub open spec fn numbers_of(names: Seq<Seq<char>>, stage_count: int) -> Option<Seq<int>>
    decreases names.len(),
{
    if names.len() == 0 {
        Some(Seq::empty())
    } else {
        match (numbers_of(names.drop_last(), stage_count), stage_number(names.last(), stage_count)) {
            (Some(numbers), Some(n)) => Some(numbers.push(n)),
            _ => None,
        }
    }
}

/// The texts of a list of strings.
pub open spec fn texts(strings: Seq<String>) -> Seq<Seq<char>> {
    strings.map_values(|s: String| s@)
}

/// The numbers of a list of indices.
pub open spec fn numbers(indices: Seq<usize>) -> Seq<int> {
    indices.map_values(|i: usize| i as int)
}

fn names_for(indices: &Vec<usize>, stage_count: usize) -> (names: Option<Vec<String>>)
    ensures
        match names {
            Some(names) => labels_of(indices@, stage_count as int) == Some(texts(names@)),
            None => labels_of(indices@, stage_count as int) is None,
        },
{
    let mut names: Vec<String> = Vec::new();
    let mut k: usize = 0;
    while k < indices.len()
        invariant
            k <= indices@.len(),
            labels_of(indices@.take(k as int), stage_count as int) == Some(texts(names@)),
        decreases indices@.len() - k,
    {
        proof {
            assert(indices@.take(k + 1).drop_last() =~= indices@.take(k as int));
        }
        match stage_name(indices[k], stage_count) {
            Some(name) => {
                let ghost before = names@;
                names.push(name);
                proof {
                    assert(texts(names@) =~= texts(before).push(names@.last()@));
                }
            },
            None => {
                proof {
                    lemma_labels_fail_onward(indices@, stage_count as int, k + 1);
                }
                return None;
            },
        }
        k = k + 1;
    }
    proof {
        assert(indices@.take(indices@.len() as int) =~= indices@);
    }
    Some(names)
}

proof fn lemma_labels_fail_onward(indices: Seq<usize>, stage_count: int, k: int)
    requires
        0 < k <= indices.len(),
        labels_of(indices.take(k), stage_count) is None,
    ensures
        labels_of(indices, stage_count) is None,
    decreases indices.len() - k,
{
    if k < indices.len() {
        assert(indices.take(k + 1).drop_last() =~= indices.take(k));
        lemma_labels_fail_onward(indices, stage_count, k + 1);
    } else {
        assert(indices.take(k) =~= indices);
    }
}

proof fn lemma_numbers_fail_onward(names: Seq<Seq<char>>, stage_count: int, k: int)
    requires
        0 < k <= names.len(),
        numbers_of(names.take(k), stage_count) is None,
    ensures
        numbers_of(names, stage_count) is None,
    decreases names.len() - k,
{
    if k < names.len() {
        assert(names.take(k + 1).drop_last() =~= names.take(k));
        lemma_numbers_fail_onward(names, stage_count, k + 1);
    } else {
        assert(names.take(k) =~= names);
    }
}

fn indices_for(features: &Vec<String>, stage_count: usize) -> (indices: Option<Vec<usize>>)
    ensures
        match indices {
            Some(indices) => numbers_of(texts(features@), stage_count as int) == Some(numbers(indices@)),
            None => numbers_of(texts(features@), stage_count as int) is None,
        },
{
    let ghost names = texts(features@);
    let mut indices: Vec<usize> = Vec::new();
    let mut k: usize = 0;
    while k < features.len()
        invariant
            names == texts(features@),
            k <= features@.len(),
            numbers_of(names.take(k as int), stage_count as int) == Some(numbers(indices@)),
        decreases features@.len() - k,
    {
        proof {
            assert(names.take(k + 1).drop_last() =~= names.take(k as int));
            assert(names.take(k + 1).last() == features@[k as int]@);
        }
        match stage_index(features[k].as_str(), stage_count) {
            Some(index) => {
                let ghost before = indices@;
                indices.push(index);
                proof {
                    assert(numbers(indices@) =~= numbers(before).push(index as int));
                }
            },
            None => {
                proof {
                    lemma_numbers_fail_onward(names, stage_count as int, k + 1);
                }
                return None;
            },
        }
        k = k + 1;
    }
    proof {
        assert(names.take(names.len() as int) =~= names);
    }
    Some(indices)
}

fn same_texts(a: &Vec<String>, b: &Vec<String>) -> (same: bool)
    ensures
        same == (texts(a@) == texts(b@)),
{
    if a.len() != b.len() {
        proof {
            assert(texts(a@).len() != texts(b@).len());
        }
        return false;
    }
    let mut k: usize = 0;
    while k < a.len()
        invariant
            a@.len() == b@.len(),
            k <= a@.len(),
            forall|j: int| 0 <= j < k ==> a@[j]@ == b@[j]@,
        decreases a@.len() - k,
    {
        let left = chars_of(a[k].as_str());
        let right = chars_of(b[k].as_str());
        if !chars_equal(&left, right.as_slice()) {
            proof {
                assert(texts(a@)[k as int] != texts(b@)[k as int]);
            }
            return false;
        }
        k = k + 1;
    }
    proof {
        assert(texts(a@) =~= texts(b@));
    }
    true
}

/// The names `labels_of` gives are, one by one, the labels of the indices.
proof fn lemma_labels_of(indices: Seq<usize>, stage_count: int)
    ensures
        labels_of(indices, stage_count) matches Some(names) ==> names.len() == indices.len() && forall|k: int|
            0 <= k < indices.len() ==> stage_label(#[trigger] indices[k] as int, stage_count) == Some(names[k]),
    decreases indices.len(),
{
    if indices.len() > 0 {
        let front = indices.drop_last();
        lemma_labels_of(front, stage_count);
        if let Some(names) = labels_of(indices, stage_count) {
            let earlier = labels_of(front, stage_count)->0;
            assert forall|k: int| 0 <= k < indices.len() implies stage_label(#[trigger] indices[k] as int, stage_count)
                == Some(names[k]) by {
                if k < front.len() {
                    assert(front[k] == indices[k]);
                    assert(names[k] == earlier[k]);
                }
            }
        }
    }
}

/// The numbers `numbers_of` gives are, one by one, the stages the names name.
proof fn lemma_numbers_of(names: Seq<Seq<char>>, stage_count: int)
    ensures
        numbers_of(names, stage_count) matches Some(ns) ==> ns.len() == names.len() && forall|k: int|
            0 <= k < names.len() ==> stage_number(#[trigger] names[k], stage_count) == Some(ns[k]),
    decreases names.len(),
{
    if names.len() > 0 {
        let front = names.drop_last();
        lemma_numbers_of(front, stage_count);
        if let Some(ns) = numbers_of(names, stage_count) {
            let earlier = numbers_of(front, stage_count)->0;
            assert forall|k: int| 0 <= k < names.len() implies stage_number(#[trigger] names[k], stage_count) == Some(
                ns[k],
            ) by {
                if k < front.len() {
                    assert(front[k] == names[k]);
                    assert(ns[k] == earlier[k]);
                }
            }
        }
    }
}

/// Names given for indices by `labels_of` name those indices back.
proof fn lemma_labels_read_back(indices: Seq<usize>, names: Seq<Seq<char>>, stage_count: int)
    requires
        0 <= stage_count <= usize::MAX,
        labels_of(indices, stage_count) == Some(names),
    ensures
        names.len() == indices.len(),
        forall|k: int| 0 <= k < indices.len() ==> stage_number(#[trigger] names[k], stage_count) == Some(indices[k] as int),
{
    lemma_labels_of(indices, stage_count);
    assert forall|k: int| 0 <= k < indices.len() implies stage_number(#[trigger] names[k], stage_count) == Some(
        indices[k] as int,
    ) by {
        assert(stage_label(indices[k] as int, stage_count) == Some(names[k]));
        lemma_stage_name_reads_back(indices[k] as int, stage_count);
    }
}

/// Why a backbone's output stage selection is invalid.
#[derive(Clone, Copy, Debug, PartialEq, Eq, Structural)]
pub enum OutFeaturesError {
    /// An output index names no stage.
    InvalidIndices,
    /// A feature name names no stage.
    InvalidFeatures,
    /// The feature names and the indices select different stages.
    Inconsistent,
}

/// Settles which stages a backbone outputs, from feature names, indices,
/// both (which must agree) or neither (the defaults), deriving the missing
/// half from the given one.
pub fn resolve_out_features(
    features: Option<Vec<String>>,
    indices: Option<Vec<usize>>,
    stage_count: usize,
    default_features: Vec<String>,
    default_indices: Vec<usize>,
) -> (resolved: Result<(Vec<String>, Vec<usize>), OutFeaturesError>)
    ensures
        match (features, indices) {
            (Some(f), Some(i)) => match labels_of(i@, stage_count as int) {
                None => resolved == Err::<(Vec<String>, Vec<usize>), OutFeaturesError>(OutFeaturesError::InvalidIndices),
                Some(derived) => if texts(f@) != derived {
                    resolved == Err::<(Vec<String>, Vec<usize>), OutFeaturesError>(OutFeaturesError::Inconsistent)
                } else {
                    resolved matches Ok((rf, ri)) && rf@ == f@ && ri@ == i@
                },
            },
            (Some(f), None) => match numbers_of(texts(f@), stage_count as int) {
                None => resolved == Err::<(Vec<String>, Vec<usize>), OutFeaturesError>(OutFeaturesError::InvalidFeatures),
                Some(derived) => resolved matches Ok((rf, ri)) && rf@ == f@ && numbers(ri@) == derived,
            },
            (None, Some(i)) => match labels_of(i@, stage_count as int) {
                None => resolved == Err::<(Vec<String>, Vec<usize>), OutFeaturesError>(OutFeaturesError::InvalidIndices),
                Some(derived) => resolved matches Ok((rf, ri)) && texts(rf@) == derived && ri@ == i@,
            },
            (None, None) => resolved matches Ok((rf, ri)) && rf@ == default_features@ && ri@ == default_indices@,
        },
        (features is Some || indices is Some) ==> (resolved matches Ok((rf, ri)) ==> {
            &&& rf@.len() == ri@.len()
            &&& forall|k: int| 0 <= k < ri@.len() ==> stage_number(#[trigger] rf@[k]@, stage_count as int) == Some(ri@[k] as int)
        }),
{
    let ghost given_features = features;
    let ghost given_indices = indices;
    let resolved = resolve_out_features_once(features, indices, stage_count, default_features, default_indices);
    proof {
        if resolved is Ok && (given_features is Some || given_indices is Some) {
            let (rf, ri) = resolved->Ok_0;
            match (given_features, given_indices) {
                (Some(f), Some(i)) => {
                    lemma_labels_read_back(i@, texts(f@), stage_count as int);
                    assert forall|k: int| 0 <= k < ri@.len() implies stage_number(#[trigger] rf@[k]@, stage_count as int)
                        == Some(ri@[k] as int) by {
                        assert(texts(f@)[k] == rf@[k]@);
                    }
                },
                (Some(f), None) => {
                    lemma_numbers_of(texts(f@), stage_count as int);
                    assert forall|k: int| 0 <= k < ri@.len() implies stage_number(#[trigger] rf@[k]@, stage_count as int)
                        == Some(ri@[k] as int) by {
                        assert(texts(f@)[k] == rf@[k]@);
                        assert(numbers(ri@)[k] == ri@[k] as int);
                    }
                },
                (None, Some(i)) => {
                    lemma_labels_read_back(i@, texts(rf@), stage_count as int);
                    assert forall|k: int| 0 <= k < ri@.len() implies stage_number(#[trigger] rf@[k]@, stage_count as int)
                        == Some(ri@[k] as int) by {
                        assert(texts(rf@)[k] == rf@[k]@);
                    }
                },
                (None, None) => {},
            }
        }
    }
    resolved
}

/// One pass of `resolve_out_features`, with its exact outcome.
fn resolve_out_features_once(
    features: Option<Vec<String>>,
    indices: Option<Vec<usize>>,
    stage_count: usize,
    default_features: Vec<String>,
    default_indices: Vec<usize>,
) -> (resolved: Result<(Vec<String>, Vec<usize>), OutFeaturesError>)
    ensures
        match (features, indices) {
            (Some(f), Some(i)) => match labels_of(i@, stage_count as int) {
                None => resolved == Err::<(Vec<String>, Vec<usize>), OutFeaturesError>(OutFeaturesError::InvalidIndices),
                Some(derived) => if texts(f@) != derived {
                    resolved == Err::<(Vec<String>, Vec<usize>), OutFeaturesError>(OutFeaturesError::Inconsistent)
                } else {
                    resolved matches Ok((rf, ri)) && rf@ == f@ && ri@ == i@
                },
            },
            (Some(f), None) => match numbers_of(texts(f@), stage_count as int) {
                None => resolved == Err::<(Vec<String>, Vec<usize>), OutFeaturesError>(OutFeaturesError::InvalidFeatures),
                Some(derived) => resolved matches Ok((rf, ri)) && rf@ == f@ && numbers(ri@) == derived,
            },
            (None, Some(i)) => match labels_of(i@, stage_count as int) {
                None => resolved == Err::<(Vec<String>, Vec<usize>), OutFeaturesError>(OutFeaturesError::InvalidIndices),
                Some(derived) => resolved matches Ok((rf, ri)) && texts(rf@) == derived && ri@ == i@,
            },
            (None, None) => resolved matches Ok((rf, ri)) && rf@ == default_features@ && ri@ == default_indices@,
        },
{
    match (features, indices) {
        (Some(features), Some(indices)) => {
            match names_for(&indices, stage_count) {
                None => Err(OutFeaturesError::InvalidIndices),
                Some(derived) => {
                    if !same_texts(&features, &derived) {
                        Err(OutFeaturesError::Inconsistent)
                    } else {
                        Ok((features, indices))
                    }
                },
            }
        },
        (Some(features), None) => {
            match indices_for(&features, stage_count) {
                None => Err(OutFeaturesError::InvalidFeatures),
                Some(derived) => Ok((features, derived)),
            }
        },
        (None, Some(indices)) => {
            match names_for(&indices, stage_count) {
                None => Err(OutFeaturesError::InvalidIndices),
                Some(derived) => Ok((derived, indices)),
            }
        },
        (None, None) => Ok((default_features, default_indices)),
    }
}

/// The output channels of each non-empty stage: those of its last block.
pub open spec fn last_block_channels(stages: Seq<Vec<BlockConfig>>) -> Seq<i64>
    decreases stages.len(),
{
    if stages.len() == 0 {
        Seq::empty()
    } else {
        let stage = stages.last()@;
        let earlier = last_block_channels(stages.drop_last());
        if stage.len() > 0 {
            earlier.push(stage.last().out_channels)
        } else {
            earlier
        }
    }
}

/// The output channels of each non-empty stage.
pub fn stage_out_channels(block_configs: &Vec<Vec<BlockConfig>>) -> (channels: Vec<i64>)
    ensures
        channels@ == last_block_channels(block_configs@),
{
    let mut channels: Vec<i64> = Vec::new();
    let mut k: usize = 0;
    while k < block_configs.len()
        invariant
            k <= block_configs@.len(),
            channels@ == last_block_channels(block_configs@.take(k as int)),
        decreases block_configs@.len() - k,
    {
        proof {
            assert(block_configs@.take(k + 1).drop_last() =~= block_configs@.take(k as int));
        }
        let stage = &block_configs[k];
        if stage.len() > 0 {
            channels.push(stage[stage.len() - 1].out_channels);
        }
        k = k + 1;
    }
    proof {
        assert(block_configs@.take(block_configs@.len() as int) =~= block_configs@);
    }
    channels
}

/// The activation a PP-DocLayoutV3 layer applies.
#[derive(Clone, Copy, Debug, PartialEq, Eq, Structural)]
pub enum Activation {
    Identity,
    Relu,
    Silu,
    Gelu,
}

/// The activation named `name`: `relu`; `silu` or `swish`; `gelu` or
/// `gelu_new`; none for any other name.
pub open spec fn activation_named(name: Seq<char>) -> Activation {
    if name == seq!['r', 'e', 'l', 'u'] {
        Activation::Relu
    } else if name == seq!['s', 'i', 'l', 'u'] || name == seq!['s', 'w', 'i', 's', 'h'] {
        Activation::Silu
    } else if name == seq!['g', 'e', 'l', 'u'] || name == seq!['g', 'e', 'l', 'u', '_', 'n', 'e', 'w'] {
        Activation::Gelu
    } else {
        Activation::Identity
    }
}

fn text_is(text: &str, literal: &str) -> (same: bool)
    ensures
        same == (text@ == literal@),
{
    let a = chars_of(text);
    let b = chars_of(literal);
    chars_equal(&a, b.as_slice())
}

impl Activation {
    /// The activation named `name`.
    pub fn from_name(name: &str) -> (activation: Activation)
        ensures
            activation == activation_named(name@),
    {
        proof {
            reveal_strlit("relu");
            reveal_strlit("silu");
            reveal_strlit("swish");
            reveal_strlit("gelu");
            reveal_strlit("gelu_new");
            assert("relu"@ =~= seq!['r', 'e', 'l', 'u']);
            assert("silu"@ =~= seq!['s', 'i', 'l', 'u']);
            assert("swish"@ =~= seq!['s', 'w', 'i', 's', 'h']);
            assert("gelu"@ =~= seq!['g', 'e', 'l', 'u']);
            assert("gelu_new"@ =~= seq!['g', 'e', 'l', 'u', '_', 'n', 'e', 'w']);
        }
        if text_is(name, "relu") {
            Activation::Relu
        } else if text_is(name, "silu") || text_is(name, "swish") {
            Activation::Silu
        } else if text_is(name, "gelu") || text_is(name, "gelu_new") {
            Activation::Gelu
        } else {
            Activation::Identity
        }
    }
}

/// The stride of feature level `level`: the configured stride where one is
/// given, else twice the previous level's.
pub open spec fn level_stride(strides: Seq<i64>, level: int) -> int
    decreases level,
{
    if level < strides.len() || level <= 0 {
        strides[level] as int
    } else {
        2 * level_stride(strides, level - 1)
    }
}

/// The `(height, width)` of each of `levels` feature maps of a fixed-size
/// input: the input size divided by each level's stride.
pub fn fixed_spatial_shapes(image_size: &[i64], feature_strides: &[i64], levels: usize) -> (shapes: Option<Vec<(i64, i64)>>)
    requires
        image_size@.len() == 2 ==> image_size@[0] >= 0 && image_size@[1] >= 0,
        forall|k: int| 0 <= k < feature_strides@.len() ==> #[trigger] feature_strides@[k] > 0,
        forall|l: int| 0 <= l < levels ==> #[trigger] level_stride(feature_strides@, l) <= i64::MAX,
    ensures
        match shapes {
            None => image_size@.len() != 2 || feature_strides@.len() == 0,
            Some(shapes) => image_size@.len() == 2 && feature_strides@.len() > 0 && shapes@.len() == levels
                && forall|l: int| 0 <= l < levels ==> {
                    let s = level_stride(feature_strides@, l);
                    &&& (#[trigger] shapes@[l]).0 as int == (image_size@[0] as int) / s
                    &&& shapes@[l].1 as int == (image_size@[1] as int) / s
                },
        },
{
    if image_size.len() != 2 || feature_strides.len() == 0 {
        return None;
    }
    let height = image_size[0];
    let width = image_size[1];
    let count = feature_strides.len();
    let mut stride: i64 = feature_strides[count - 1];
    let mut shapes: Vec<(i64, i64)> = Vec::new();
    let mut level: usize = 0;
    while level < levels
        invariant
            count == feature_strides@.len(),
            count > 0,
            height == image_size@[0] && width == image_size@[1],
            height >= 0 && width >= 0,
            forall|k: int| 0 <= k < feature_strides@.len() ==> #[trigger] feature_strides@[k] > 0,
            forall|l: int| 0 <= l < levels ==> #[trigger] level_stride(feature_strides@, l) <= i64::MAX,
            level <= levels,
            shapes@.len() == level,
            level == 0 ==> stride == feature_strides@[count - 1],
            level > 0 ==> stride == level_stride(feature_strides@, level - 1),
            stride > 0,
            forall|l: int| 0 <= l < level ==> {
                let s = level_stride(feature_strides@, l);
                &&& (#[trigger] shapes@[l]).0 as int == (height as int) / s
                &&& shapes@[l].1 as int == (width as int) / s
            },
        decreases levels - level,
    {
        if level < count {
            stride = feature_strides[level];
        } else {
            proof {
                assert(level_stride(feature_strides@, level as int) <= i64::MAX);
                if level > 0 {
                    assert(level_stride(feature_strides@, level as int) == 2 * level_stride(feature_strides@, level - 1));
                }
            }
            stride = stride * 2;
        }
        proof {
            assert(stride == level_stride(feature_strides@, level as int));
        }
        shapes.push((height / stride, width / stride));
        level = level + 1;
    }
    Some(shapes)
}

/// The offset of each feature level in the flattened feature sequence.
pub open spec fn level_starts(shapes: Seq<(i64, i64)>) -> Seq<int>
    decreases shapes.len(),
{
    if shapes.len() == 0 {
        Seq::empty()
    } else {
        let earlier = level_starts(shapes.drop_last());
        let before = shapes.drop_last();
        earlier.push(flattened_size(before))
    }
}

/// The number of positions of all feature maps together.
pub open spec fn flattened_size(shapes: Seq<(i64, i64)>) -> int
    decreases shapes.len(),
{
    if shapes.len() == 0 {
        0
    } else {
        flattened_size(shapes.drop_last()) + shapes.last().0 * shapes.last().1
    }
}

/// The offset of each feature level in the flattened feature sequence.
pub fn level_start_index(shapes: &Vec<(i64, i64)>) -> (starts: Vec<i64>)
    requires
        forall|k: int| 0 <= k < shapes@.len() ==> i64::MIN <= (#[trigger] shapes@[k]).0 * shapes@[k].1 <= i64::MAX,
        forall|k: int| 0 <= k <= shapes@.len() ==> i64::MIN <= #[trigger] flattened_size(shapes@.take(k)) <= i64::MAX,
    ensures
        starts@.map_values(|v: i64| v as int) == level_starts(shapes@),
{
    let mut offset: i64 = 0;
    let mut starts: Vec<i64> = Vec::new();
    let mut k: usize = 0;
    proof {
        assert(shapes@.take(0) =~= Seq::<(i64, i64)>::empty());
    }
    while k < shapes.len()
        invariant
            k <= shapes@.len(),
            forall|j: int| 0 <= j < shapes@.len() ==> i64::MIN <= (#[trigger] shapes@[j]).0 * shapes@[j].1 <= i64::MAX,
            forall|j: int| 0 <= j <= shapes@.len() ==> i64::MIN <= #[trigger] flattened_size(shapes@.take(j)) <= i64::MAX,
            offset == flattened_size(shapes@.take(k as int)),
            starts@.map_values(|v: i64| v as int) == level_starts(shapes@.take(k as int)),
        decreases shapes@.len() - k,
    {
        let (height, width) = shapes[k];
        let ghost before = starts@;
        starts.push(offset);
        proof {
            let next = shapes@.take(k + 1);
            assert(next.drop_last() =~= shapes@.take(k as int));
            assert(next.last() == shapes@[k as int]);
            assert(starts@.map_values(|v: i64| v as int) =~= before.map_values(|v: i64| v as int).push(offset as int));
            assert(flattened_size(next) == offset + height * width);
            assert(i64::MIN <= flattened_size(next) <= i64::MAX);
            assert(i64::MIN <= height * width <= i64::MAX);
        }
        offset = offset + height * width;
        k = k + 1;
    }
    proof {
        assert(shapes@.take(shapes@.len() as int) =~= shapes@);
    }
    starts
}

/// Which of HGNetV2's four stages `feature` names (1 to 4), or 0.
pub open spec fn hgnet_stage(feature: Seq<char>) -> int {
    if feature == stage_prefix().push('1') {
        1
    } else if feature == stage_prefix().push('2') {
        2
    } else if feature == stage_prefix().push('3') {
        3
    } else if feature == stage_prefix().push('4') {
        4
    } else {
        0
    }
}

/// The channel count of each output feature of an HGNetV2 backbone that it
/// knows: the stem's last channel count (48 where none is configured) or a
/// stage's output channel count; other names are skipped.
pub open spec fn hgnet_feature_channels(features: Seq<Seq<char>>, stem: Seq<i64>, stages: Seq<i64>) -> Seq<i64>
    decreases features.len(),
{
    if features.len() == 0 {
        Seq::empty()
    } else {
        let earlier = hgnet_feature_channels(features.drop_last(), stem, stages);
        let f = features.last();
        if f == stem_name() {
            earlier.push(if stem.len() > 0 { stem.last() } else { 48 })
        } else if hgnet_stage(f) > 0 {
            earlier.push(stages[hgnet_stage(f) - 1])
        } else {
            earlier
        }
    }
}

/// The channel count of each known output feature of an HGNetV2 backbone.
pub fn hgnet_channels(out_features: &Vec<String>, stem_channels: &Vec<i64>, stage_out_channels: &Vec<i64>) -> (channels: Vec<i64>)
    requires
        forall|k: int| 0 <= k < out_features@.len() ==> hgnet_stage(#[trigger] out_features@[k]@) <= stage_out_channels@.len(),
    ensures
        channels@ == hgnet_feature_channels(texts(out_features@), stem_channels@, stage_out_channels@),
{
    let ghost names = texts(out_features@);
    proof {
        reveal_strlit("stem");
        reveal_strlit("stage1");
        reveal_strlit("stage2");
        reveal_strlit("stage3");
        reveal_strlit("stage4");
        assert("stem"@ =~= stem_name());
        assert("stage1"@ =~= stage_prefix().push('1'));
        assert("stage2"@ =~= stage_prefix().push('2'));
        assert("stage3"@ =~= stage_prefix().push('3'));
        assert("stage4"@ =~= stage_prefix().push('4'));
    }
    let mut channels: Vec<i64> = Vec::new();
    let mut k: usize = 0;
    while k < out_features.len()
        invariant
            names == texts(out_features@),
            "stem"@ == stem_name(),
            "stage1"@ == stage_prefix().push('1'),
            "stage2"@ == stage_prefix().push('2'),
            "stage3"@ == stage_prefix().push('3'),
            "stage4"@ == stage_prefix().push('4'),
            forall|j: int| 0 <= j < out_features@.len() ==> hgnet_stage(#[trigger] out_features@[j]@) <= stage_out_channels@.len(),
            k <= out_features@.len(),
            channels@ == hgnet_feature_channels(names.take(k as int), stem_channels@, stage_out_channels@),
        decreases out_features@.len() - k,
    {
        proof {
            assert(names.take(k + 1).drop_last() =~= names.take(k as int));
            assert(names.take(k + 1).last() == out_features@[k as int]@);
            assert(hgnet_stage(out_features@[k as int]@) <= stage_out_channels@.len());
        }
        let feature = out_features[k].as_str();
        if text_is(feature, "stem") {
            let channel = if stem_channels.len() > 0 { stem_channels[stem_channels.len() - 1] } else { 48 };
            channels.push(channel);
        } else if text_is(feature, "stage1") {
            channels.push(stage_out_channels[0]);
        } else if text_is(feature, "stage2") {
            channels.push(stage_out_channels[1]);
        } else if text_is(feature, "stage3") {
            channels.push(stage_out_channels[2]);
        } else if text_is(feature, "stage4") {
            channels.push(stage_out_channels[3]);
        }
        k = k + 1;
    }
    proof {
        assert(names.take(names.len() as int) =~= names);
    }
    channels
}

/// The number of labels a PP-DocLayoutV3 model has: the configured count,
/// else as many as named, but at least 2.
pub fn doclayout_num_labels(num_labels: Option<i64>, named: usize) -> (count: i64)
    ensures
        count == match num_labels {
            Some(n) => n as int,
            None => if named >= 2 {
                if named <= i64::MAX { named as int } else { i64::MAX as int }
            } else {
                2
            },
        },
{
    match num_labels {
        Some(n) => n,
        None => if named >= 2 {
            if named as u64 <= i64::MAX as u64 { named as i64 } else { i64::MAX }
        } else {
            2
        },
    }
}

/// `LABEL_<index>`, the name a label without a configured name gets.
pub open spec fn placeholder_label(index: nat) -> Seq<char> {
    seq!['L', 'A', 'B', 'E', 'L', '_'] + decimal(index)
}

/// Whether `pairs` are in order of their ids.
pub open spec fn ordered_by_key(pairs: Seq<(usize, String)>) -> bool {
    forall|i: int, j: int| 0 <= i < j < pairs.len() ==> (#[trigger] pairs[i]).0 <= (#[trigger] pairs[j]).0
}

/// The entries of `id2label` whose id reads as a `usize`, with the id read.
pub open spec fn numbered_labels(id2label: Seq<(String, String)>) -> Seq<(usize, String)>
    decreases id2label.len(),
{
    if id2label.len() == 0 {
        Seq::empty()
    } else {
        let earlier = numbered_labels(id2label.drop_last());
        let (id, label) = id2label.last();
        match unsigned_value(id@, 10) {
            Some(n) => if n <= usize::MAX {
                earlier.push((n as usize, label))
            } else {
                earlier
            },
            None => earlier,
        }
    }
}

/// Where a stable insertion puts a pair with key `key` among `sorted`,
/// scanning back from position `p`: after every pair whose key is at most
/// `key`.
pub open spec fn key_insertion_point(sorted: Seq<(usize, String)>, key: usize, p: int) -> int
    decreases p,
{
    if 0 < p <= sorted.len() && sorted[p - 1].0 > key {
        key_insertion_point(sorted, key, p - 1)
    } else {
        p
    }
}

/// `pairs` in the order a stable sort by key leaves them: each pair in turn
/// placed after the earlier pairs whose key is no larger.
pub open spec fn stably_sorted_by_key(pairs: Seq<(usize, String)>) -> Seq<(usize, String)>
    decreases pairs.len(),
{
    if pairs.len() == 0 {
        Seq::empty()
    } else {
        let front = stably_sorted_by_key(pairs.drop_last());
        front.insert(key_insertion_point(front, pairs.last().0, front.len() as int), pairs.last())
    }
}

fn sort_by_key(pairs: Vec<(usize, String)>) -> (sorted: Vec<(usize, String)>)
    ensures
        sorted@ == stably_sorted_by_key(pairs@),
        sorted@.to_multiset() == pairs@.to_multiset(),
        ordered_by_key(sorted@),
{
    let mut sorted: Vec<(usize, String)> = Vec::new();
    let mut rest = pairs;
    let ghost all = rest@;
    let ghost mut done: int = 0;
    proof {
        assert(all.take(0) =~= Seq::<(usize, String)>::empty());
        assert(all.skip(0) =~= all);
    }
    while rest.len() > 0
        invariant
            0 <= done <= all.len(),
            rest@ == all.skip(done),
            sorted@ == stably_sorted_by_key(all.take(done)),
            sorted@.to_multiset() == all.take(done).to_multiset(),
            ordered_by_key(sorted@),
        decreases rest@.len(),
    {
        let pair = rest.remove(0);
        proof {
            assert(pair == all[done]);
            assert(rest@ =~= all.skip(done + 1));
        }
        let key = pair.0;
        let mut pos: usize = sorted.len();
        while pos > 0 && sorted[pos - 1].0 > key
            invariant
                pos <= sorted@.len(),
                forall|k: int| pos <= k < sorted@.len() ==> (#[trigger] sorted@[k]).0 > key,
                key_insertion_point(sorted@, key, sorted@.len() as int) == key_insertion_point(sorted@, key, pos as int),
            decreases pos,
        {
            pos = pos - 1;
        }
        let ghost old_sorted = sorted@;
        sorted.insert(pos, pair);
        proof {
            let front = all.take(done);
            let next = all.take(done + 1);
            assert(next.drop_last() =~= front);
            assert(next.last() == pair);
            assert(next =~= front.push(pair));
            assert(key_insertion_point(old_sorted, key, pos as int) == pos);
            assert(sorted@ =~= old_sorted.insert(pos as int, pair));
            assert(sorted@.to_multiset() == old_sorted.to_multiset().insert(pair));
            assert forall|i: int, j: int| 0 <= i < j < sorted@.len() implies (#[trigger] sorted@[i]).0
                <= (#[trigger] sorted@[j]).0 by {
                if i < pos && j > pos {
                    assert(sorted@[i] == old_sorted[i]);
                    assert(sorted@[j] == old_sorted[j - 1]);
                } else if i < pos && j == pos {
                    assert(sorted@[i] == old_sorted[i]);
                    if pos > 0 {
                        assert(old_sorted[pos - 1].0 <= key);
                    }
                } else if i == pos {
                    assert(sorted@[j] == old_sorted[j - 1]);
                } else if i > pos {
                    assert(sorted@[i] == old_sorted[i - 1]);
                    assert(sorted@[j] == old_sorted[j - 1]);
                } else {
                    assert(sorted@[i] == old_sorted[i]);
                    assert(sorted@[j] == old_sorted[j]);
                }
            }
            done = done + 1;
        }
    }
    proof {
        assert(all.take(done) =~= all);
    }
    sorted
}

fn copy_string(text: &String) -> (copy: String)
    ensures
        copy == *text,
{
    text.clone()
}

/// The label names of a PP-DocLayoutV3 model. Without configured names,
/// `LABEL_0` up to the label count; else the configured names whose ids
/// read as numbers, in order of id, names with equal ids kept in the order
/// they are configured.
pub fn doclayout_labels(num_labels: Option<i64>, id2label: &Vec<(String, String)>) -> (labels: Vec<String>)
    ensures
        id2label@.len() == 0 ==> {
            let count = match num_labels {
                Some(n) => n as int,
                None => 2,
            };
            &&& labels@.len() == if count > 0 { count } else { 0 }
            &&& forall|i: int| 0 <= i < labels@.len() ==> (#[trigger] labels@[i])@ == placeholder_label(i as nat)
        },
        id2label@.len() > 0 ==> {
            let sorted = stably_sorted_by_key(numbered_labels(id2label@));
            &&& labels@ == sorted.map_values(|p: (usize, String)| p.1)
            &&& sorted.to_multiset() == numbered_labels(id2label@).to_multiset()
            &&& ordered_by_key(sorted)
        },
{
    if id2label.len() == 0 {
        let count = doclayout_num_labels(num_labels, 0);
        let mut labels: Vec<String> = Vec::new();
        let mut i: i64 = 0;
        while i < count
            invariant
                0 <= i,
                i <= count || count <= 0,
                count <= 0 ==> i == 0,
                labels@.len() == i,
                forall|k: int| 0 <= k < labels@.len() ==> (#[trigger] labels@[k])@ == placeholder_label(k as nat),
            decreases count - i,
        {
            let mut chars = chars_of("LABEL_");
            proof {
                reveal_strlit("LABEL_");
                assert(chars@ =~= seq!['L', 'A', 'B', 'E', 'L', '_']);
            }
            let digits = decimal_chars(i as u64);
            let ghost start = chars@;
            let mut k: usize = 0;
            while k < digits.len()
                invariant
                    k <= digits@.len(),
                    chars@ == start + digits@.take(k as int),
                decreases digits@.len() - k,
            {
                chars.push(digits[k]);
                proof {
                    assert(chars@ =~= start + digits@.take(k + 1));
                }
                k = k + 1;
            }
            proof {
                assert(digits@.take(digits@.len() as int) =~= digits@);
            }
            labels.push(string_from_chars(&chars));
            i = i + 1;
        }
        return labels;
    }
    let mut pairs: Vec<(usize, String)> = Vec::new();
    let mut k: usize = 0;
    while k < id2label.len()
        invariant
            k <= id2label@.len(),
            pairs@ == numbered_labels(id2label@.take(k as int)),
        decreases id2label@.len() - k,
    {
        proof {
            assert(id2label@.take(k + 1).drop_last() =~= id2label@.take(k as int));
            assert(id2label@.take(k + 1).last() == id2label@[k as int]);
        }
        let id = chars_of(id2label[k].0.as_str());
        match parse_unsigned(&id, 10, usize::MAX as u64) {
            Some(n) => {
                pairs.push((n as usize, copy_string(&id2label[k].1)));
            },
            None => {},
        }
        k = k + 1;
    }
    proof {
        assert(id2label@.take(id2label@.len() as int) =~= id2label@);
    }
    let sorted = sort_by_key(pairs);
    let mut labels: Vec<String> = Vec::new();
    let mut j: usize = 0;
    while j < sorted.len()
        invariant
            j <= sorted@.len(),
            labels@ == sorted@.take(j as int).map_values(|p: (usize, String)| p.1),
        decreases sorted@.len() - j,
    {
        labels.push(copy_string(&sorted[j].1));
        proof {
            assert(labels@ =~= sorted@.take(j + 1).map_values(|p: (usize, String)| p.1));
        }
        j = j + 1;
    }
    proof {
        assert(sorted@.take(sorted@.len() as int) =~= sorted@);
    }
    labels
}

} // verus!
