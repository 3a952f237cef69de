use vstd::prelude::*;

use crate::text::{ascii_lowercase, ascii_lowered, chars_equal, chars_of, contains_run, occurs_in, trim_chars, trimmed};

verus! {

/// The maker of an accelerator, as its PCI vendor id tells it.
#[derive(Clone, Copy, Debug, PartialEq, Eq, Structural)]
pub enum Vendor {
    Nvidia,
    Amd,
    Intel,
    Apple,
    Unknown,
}

/// The compute backend a model runs on.
#[derive(Clone, Debug, PartialEq, Eq)]
pub enum Backend {
    Cpu,
    Cuda,
    Rocm,
    Metal,
    Vulkan,
    Other(String),
}

/// Whether a device is the host processor or an accelerator.
#[derive(Clone, Copy, Debug, PartialEq, Eq, Structural)]
pub enum DeviceType {
    Cpu,
    Gpu,
}

/// The device the pipeline's models run on.
#[derive(Clone, Debug)]
pub struct Device {
    pub device_type: DeviceType,
    pub backend: Backend,
    pub index: usize,
    pub name: String,
    pub description: String,
}

/// One accelerator as a telemetry provider reports it.
#[derive(Clone, Debug)]
pub struct Sample {
    pub id: usize,
    pub name: String,
    pub vendor: Vendor,
    pub budget_bytes: u64,
    pub used_bytes: u64,
    /// Busy time in whole percent, where the provider reports it.
    pub utilization_percent: Option<u64>,
}

/// What the resource monitor shows of one accelerator.
#[derive(Clone, Debug)]
pub struct DeviceResources {
    pub name: String,
    pub selected: bool,
    pub memory_budget_bytes: Option<u64>,
    pub memory_used_bytes: Option<u64>,
    /// Busy time in whole percent, where the provider reports it.
    pub utilization_percent: Option<u64>,
}

impl Sample {
    pub(crate) fn copied(&self) -> (sample: Sample)
        ensures
            sample == *self,
    {
        Sample {
            id: self.id,
            name: self.name.clone(),
            vendor: self.vendor,
            budget_bytes: self.budget_bytes,
            used_bytes: self.used_bytes,
            utilization_percent: self.utilization_percent,
        }
    }
}

/// The vendor a PCI vendor id stands for.
pub open spec fn vendor_for(id: u32) -> Vendor {
    if id == 0x10de {
        Vendor::Nvidia
    } else if id == 0x1002 || id == 0x1022 {
        Vendor::Amd
    } else if id == 0x8086 {
        Vendor::Intel
    } else {
        Vendor::Unknown
    }
}

/// The vendor a PCI vendor id stands for.
pub fn vendor(id: u32) -> (vendor: Vendor)
    ensures
        vendor == vendor_for(id),
{
    if id == 0x10de {
        Vendor::Nvidia
    } else if id == 0x1002 || id == 0x1022 {
        Vendor::Amd
    } else if id == 0x8086 {
        Vendor::Intel
    } else {
        Vendor::Unknown
    }
}

/// Whether two device names denote the same device: both are non-empty once
/// trimmed, and, ignoring ASCII case, one holds the other.
pub open spec fn names_agree(left: Seq<char>, right: Seq<char>) -> bool {
    let l = ascii_lowered(trimmed(left));
    let r = ascii_lowered(trimmed(right));
    &&& l.len() > 0
    &&& r.len() > 0
    &&& (l == r || occurs_in(r, l) || occurs_in(l, r))
}

/// Whether two device names denote the same device.
pub fn names_match(left: &str, right: &str) -> (result: bool)
    ensures
        result == names_agree(left@, right@),
{
    let l = ascii_lowercase(&trim_chars(&chars_of(left)));
    let r = ascii_lowercase(&trim_chars(&chars_of(right)));
    l.len() > 0 && r.len() > 0 && (chars_equal(&l, r.as_slice()) || contains_run(&l, &r) || contains_run(&r, &l))
}

/// Whether an accelerator of `vendor` can serve `backend`.
pub open spec fn serves(vendor: Vendor, backend: Backend) -> bool {
    match backend {
        Backend::Cuda => vendor == Vendor::Nvidia,
        Backend::Rocm => vendor == Vendor::Amd,
        Backend::Metal => vendor == Vendor::Apple,
        Backend::Vulkan => true,
        Backend::Other(_) => true,
        Backend::Cpu => false,
    }
}

/// Whether an accelerator of `vendor` can serve `backend`.
pub fn vendor_matches_backend(vendor: Vendor, backend: &Backend) -> (result: bool)
    ensures
        result == serves(vendor, *backend),
{
    match backend {
        Backend::Cuda => vendor == Vendor::Nvidia,
        Backend::Rocm => vendor == Vendor::Amd,
        Backend::Metal => vendor == Vendor::Apple,
        Backend::Vulkan => true,
        Backend::Other(_) => true,
        Backend::Cpu => false,
    }
}

/// Whether some sample can serve the target's backend.
pub open spec fn any_compatible(target: Device, samples: Seq<Sample>) -> bool {
    exists|i: int| 0 <= i < samples.len() && serves(#[trigger] samples[i].vendor, target.backend)
}

/// Whether sample `i` is one the target may be: one that can serve its
/// backend, or any sample where none can.
pub open spec fn is_candidate(target: Device, samples: Seq<Sample>, i: int) -> bool {
    &&& 0 <= i < samples.len()
    &&& (any_compatible(target, samples) ==> serves(samples[i].vendor, target.backend))
}

/// Whether sample `sample` carries the target's name or description.
pub open spec fn named_like(target: Device, sample: Sample) -> bool {
    names_agree(sample.name@, target.name@) || names_agree(sample.name@, target.description@)
}

/// The first candidate from `i` on that carries the target's name.
pub open spec fn first_named(target: Device, samples: Seq<Sample>, i: int) -> Option<int>
    decreases samples.len() - i,
{
    if i < 0 || i >= samples.len() {
        None
    } else if is_candidate(target, samples, i) && named_like(target, samples[i]) {
        Some(i)
    } else {
        first_named(target, samples, i + 1)
    }
}

/// The first candidate from `i` on whose id is the target's index.
pub open spec fn first_with_id(target: Device, samples: Seq<Sample>, i: int) -> Option<int>
    decreases samples.len() - i,
{
    if i < 0 || i >= samples.len() {
        None
    } else if is_candidate(target, samples, i) && samples[i].id == target.index {
        Some(i)
    } else {
        first_with_id(target, samples, i + 1)
    }
}

/// The candidate that `n` other candidates precede, counting from `i` on.
pub open spec fn nth_candidate(target: Device, samples: Seq<Sample>, n: int, i: int) -> Option<int>
    decreases samples.len() - i,
{
    if i < 0 || i >= samples.len() {
        None
    } else if is_candidate(target, samples, i) {
        if n == 0 {
            Some(i)
        } else {
            nth_candidate(target, samples, n - 1, i + 1)
        }
    } else {
        nth_candidate(target, samples, n, i + 1)
    }
}

/// The sample the target device is taken to be: the first candidate that
/// carries its name, else the first whose id is its index, else the candidate
/// at its index, else the first candidate.
pub open spec fn selection(target: Device, samples: Seq<Sample>) -> Option<int> {
    match first_named(target, samples, 0) {
        Some(i) => Some(i),
        None => match first_with_id(target, samples, 0) {
            Some(i) => Some(i),
            None => match nth_candidate(target, samples, target.index as int, 0) {
                Some(i) => Some(i),
                None => nth_candidate(target, samples, 0, 0),
            },
        },
    }
}

fn any_serves(target: &Device, samples: &Vec<Sample>) -> (result: bool)
    ensures
        result == any_compatible(*target, samples@),
{
    let mut i: usize = 0;
    while i < samples.len()
        invariant
            i <= samples@.len(),
            forall|j: int| 0 <= j < i ==> !serves(#[trigger] samples@[j].vendor, target.backend),
        decreases samples@.len() - i,
    {
        if vendor_matches_backend(samples[i].vendor, &target.backend) {
            return true;
        }
        i = i + 1;
    }
    false
}

fn named_like_exec(target: &Device, sample: &Sample) -> (result: bool)
    ensures
        result == named_like(*target, *sample),
{
    names_match(sample.name.as_str(), target.name.as_str()) || names_match(
        sample.name.as_str(),
        target.description.as_str(),
    )
}

/// The index of the sample the target device is taken to be, or `None` where
/// there is no sample.
pub fn select_sample(target: &Device, samples: &Vec<Sample>) -> (selected: Option<usize>)
    ensures
        match selected {
            Some(i) => selection(*target, samples@) == Some(i as int),
            None => selection(*target, samples@) is None,
        },
{
    let any = any_serves(target, samples);
    let len = samples.len();
    let mut i: usize = 0;
    while i < len
        invariant
            len == samples@.len(),
            i <= len,
            any == any_compatible(*target, samples@),
            first_named(*target, samples@, 0) == first_named(*target, samples@, i as int),
        decreases len - i,
    {
        let candidate = !any || vendor_matches_backend(samples[i].vendor, &target.backend);
        if candidate && named_like_exec(target, &samples[i]) {
            return Some(i);
        }
        i = i + 1;
    }
    let mut i: usize = 0;
    while i < len
        invariant
            len == samples@.len(),
            i <= len,
            any == any_compatible(*target, samples@),
            first_named(*target, samples@, 0) is None,
            first_with_id(*target, samples@, 0) == first_with_id(*target, samples@, i as int),
        decreases len - i,
    {
        let candidate = !any || vendor_matches_backend(samples[i].vendor, &target.backend);
        if candidate && samples[i].id == target.index {
            return Some(i);
        }
        i = i + 1;
    }
    let mut i: usize = 0;
    let mut seen: usize = 0;
    let mut first: Option<usize> = None;
    while i < len
        invariant
            len == samples@.len(),
            i <= len,
            seen <= i,
            seen <= target.index,
            any == any_compatible(*target, samples@),
            first_named(*target, samples@, 0) is None,
            first_with_id(*target, samples@, 0) is None,
            nth_candidate(*target, samples@, target.index as int, 0) == nth_candidate(
                *target,
                samples@,
                target.index - seen,
                i as int,
            ),
            match first {
                Some(f) => nth_candidate(*target, samples@, 0, 0) == Some(f as int),
                None => nth_candidate(*target, samples@, 0, 0) == nth_candidate(*target, samples@, 0, i as int),
            },
        decreases len - i,
    {
        let candidate = !any || vendor_matches_backend(samples[i].vendor, &target.backend);
        if candidate {
            if seen == target.index {
                return Some(i);
            }
            if first.is_none() {
                first = Some(i);
            }
            seen = seen + 1;
        }
        i = i + 1;
    }
    first
}

/// What the monitor shows of each sample: every sample, in order, with its
/// memory figures where it reports a budget, and the target device marked.
pub open spec fn shown(target: Device, samples: Seq<Sample>, i: int, shown: DeviceResources) -> bool {
    let sample = samples[i];
    &&& shown.name == sample.name
    &&& shown.selected == (selection(target, samples) == Some(i))
    &&& shown.memory_budget_bytes == (if sample.budget_bytes > 0 {
        Some(sample.budget_bytes)
    } else {
        None::<u64>
    })
    &&& shown.memory_used_bytes == (if sample.budget_bytes > 0 {
        Some(sample.used_bytes)
    } else {
        None::<u64>
    })
    &&& shown.utilization_percent == sample.utilization_percent
}

/// The resources shown for the accelerators that a provider reported.
pub fn map_samples(target: &Device, samples: Vec<Sample>) -> (devices: Vec<DeviceResources>)
    ensures
        devices@.len() == samples@.len(),
        forall|i: int| 0 <= i < samples@.len() ==> shown(*target, samples@, i, #[trigger] devices@[i]),
{
    let selected = select_sample(target, &samples);
    let mut devices: Vec<DeviceResources> = Vec::new();
    let mut i: usize = 0;
    while i < samples.len()
        invariant
            i <= samples@.len(),
            devices@.len() == i,
            match selected {
                Some(s) => selection(*target, samples@) == Some(s as int),
                None => selection(*target, samples@) is None,
            },
            forall|j: int| 0 <= j < i ==> shown(*target, samples@, j, #[trigger] devices@[j]),
        decreases samples@.len() - i,
    {
        let sample = &samples[i];
        let reported = sample.budget_bytes > 0;
        devices.push(
            DeviceResources {
                name: sample.name.clone(),
                selected: match selected {
                    Some(s) => s == i,
                    None => false,
                },
                memory_budget_bytes: if reported { Some(sample.budget_bytes) } else { None },
                memory_used_bytes: if reported { Some(sample.used_bytes) } else { None },
                utilization_percent: sample.utilization_percent,
            },
        );
        i = i + 1;
    }
    devices
}

proof fn lemma_first_named_is_candidate(target: Device, samples: Seq<Sample>, i: int)
    requires
        0 <= i,
    ensures
        first_named(target, samples, i) matches Some(k) ==> i <= k && is_candidate(target, samples, k),
    decreases samples.len() - i,
{
    if i < samples.len() {
        lemma_first_named_is_candidate(target, samples, i + 1);
    }
}

proof fn lemma_first_with_id_is_candidate(target: Device, samples: Seq<Sample>, i: int)
    requires
        0 <= i,
    ensures
        first_with_id(target, samples, i) matches Some(k) ==> i <= k && is_candidate(target, samples, k),
    decreases samples.len() - i,
{
    if i < samples.len() {
        lemma_first_with_id_is_candidate(target, samples, i + 1);
    }
}

proof fn lemma_nth_candidate_is_candidate(target: Device, samples: Seq<Sample>, n: int, i: int)
    requires
        0 <= i,
    ensures
        nth_candidate(target, samples, n, i) matches Some(k) ==> i <= k && is_candidate(target, samples, k),
    decreases samples.len() - i,
{
    if i < samples.len() {
        lemma_nth_candidate_is_candidate(target, samples, n - 1, i + 1);
        lemma_nth_candidate_is_candidate(target, samples, n, i + 1);
    }
}

proof fn lemma_first_candidate_exists(target: Device, samples: Seq<Sample>, i: int, k: int)
    requires
        0 <= i <= k,
        is_candidate(target, samples, k),
    ensures
        nth_candidate(target, samples, 0, i) is Some,
    decreases k - i,
{
    if !is_candidate(target, samples, i) {
        lemma_first_candidate_exists(target, samples, i + 1, k);
    }
}

/// Whenever a provider reports any accelerator, exactly one is taken for the
/// target device, and it is one that can serve the target's backend wherever
/// any reported accelerator can.
pub proof fn lemma_selection_is_a_candidate(target: Device, samples: Seq<Sample>)
    ensures
        samples.len() > 0 ==> selection(target, samples) is Some,
        selection(target, samples) matches Some(k) ==> is_candidate(target, samples, k),
{
    lemma_first_named_is_candidate(target, samples, 0);
    lemma_first_with_id_is_candidate(target, samples, 0);
    lemma_nth_candidate_is_candidate(target, samples, target.index as int, 0);
    lemma_nth_candidate_is_candidate(target, samples, 0, 0);
    if samples.len() > 0 {
        if any_compatible(target, samples) {
            let k = choose|k: int| 0 <= k < samples.len() && serves(#[trigger] samples[k].vendor, target.backend);
            lemma_first_candidate_exists(target, samples, 0, k);
        } else {
            lemma_first_candidate_exists(target, samples, 0, 0);
        }
    }
}

/// Whether the target runs on the host processor, with no accelerator to show.
pub open spec fn runs_on_cpu(target: Device) -> bool {
    target.device_type == DeviceType::Cpu || target.backend == Backend::Cpu
}

/// Whether models on `target` share one accelerator lane, so that their
/// work runs one at a time: exactly when it is no host processor target.
pub fn is_accelerated(target: &Device) -> (accelerated: bool)
    ensures
        accelerated == !runs_on_cpu(*target),
{
    match (&target.device_type, &target.backend) {
        (DeviceType::Cpu, _) => false,
        (_, Backend::Cpu) => false,
        _ => true,
    }
}

/// What the monitor shows when no provider can report: nothing for a host
/// processor target, else the target alone, selected, with no figures.
pub fn unavailable(target: &Device) -> (devices: Vec<DeviceResources>)
    ensures
        runs_on_cpu(*target) ==> devices@.len() == 0,
        !runs_on_cpu(*target) ==> {
            &&& devices@.len() == 1
            &&& devices@[0].name == target.description
            &&& devices@[0].selected
            &&& devices@[0].memory_budget_bytes is None
            &&& devices@[0].memory_used_bytes is None
            &&& devices@[0].utilization_percent is None
        },
{
    let on_cpu = match (&target.device_type, &target.backend) {
        (DeviceType::Cpu, _) => true,
        (_, Backend::Cpu) => true,
        _ => false,
    };
    if on_cpu {
        Vec::new()
    } else {
        vec![
            DeviceResources {
                name: target.description.clone(),
                selected: true,
                memory_budget_bytes: None,
                memory_used_bytes: None,
                utilization_percent: None,
            },
        ]
    }
}

} // verus!
