use vstd::prelude::*;

use crate::pipeline::resources::{Sample, Vendor, names_agree, vendor, vendor_for};
use crate::text::{chars_of, parse_unsigned, trim_chars, trimmed, unsigned_value};

verus! {

broadcast use vstd::seq_lib::group_to_multiset_ensures;

/// `text` with every leading `0x` taken off, as std's `trim_start_matches("0x")`.
pub open spec fn without_hex_prefixes(text: Seq<char>) -> Seq<char>
    decreases text.len(),
{
    if text.len() >= 2 && text[0] == '0' && text[1] == 'x' {
        without_hex_prefixes(text.subrange(2, text.len() as int))
    } else {
        text
    }
}

fn strip_hex_prefixes(text: &Vec<char>) -> (rest: Vec<char>)
    ensures
        rest@ == without_hex_prefixes(text@),
{
    let len = text.len();
    let mut start: usize = 0;
    proof {
        assert(text@.subrange(0, len as int) =~= text@);
    }
    while len - start >= 2 && text[start] == '0' && text[start + 1] == 'x'
        invariant
            len == text@.len(),
            start <= len,
            without_hex_prefixes(text@) == without_hex_prefixes(text@.subrange(start as int, len as int)),
        decreases len - start,
    {
        proof {
            let s = text@.subrange(start as int, len as int);
            assert(s.subrange(2, s.len() as int) =~= text@.subrange(start + 2, len as int));
        }
        start = start + 2;
    }
    let mut rest: Vec<char> = Vec::new();
    let mut i: usize = start;
    while i < len
        invariant
            len == text@.len(),
            start <= i <= len,
            rest@ == text@.subrange(start as int, i as int),
        decreases len - i,
    {
        rest.push(text[i]);
        proof {
            assert(rest@ =~= text@.subrange(start as int, i + 1));
        }
        i = i + 1;
    }
    proof {
        let s = text@.subrange(start as int, len as int);
        assert(rest@ =~= s);
        if s.len() >= 2 {
            assert(s[0] == text@[start as int] && s[1] == text@[start + 1]);
        }
    }
    rest
}

/// Reads a decimal counter file's text: trimmed, then read as an unsigned
/// 64-bit number.
pub fn parse_counter(text: &str) -> (value: Option<u64>)
    ensures
        match value {
            Some(v) => unsigned_value(trimmed(text@), 10) == Some(v as int),
            None => match unsigned_value(trimmed(text@), 10) {
                Some(n) => n > u64::MAX,
                None => true,
            },
        },
{
    let chars = trim_chars(&chars_of(text));
    parse_unsigned(&chars, 10, u64::MAX)
}

/// Reads a PCI id file's text: trimmed, every leading `0x` taken off, then
/// read as an unsigned 32-bit hexadecimal number.
pub fn parse_pci_id(text: &str) -> (value: Option<u32>)
    ensures
        match value {
            Some(v) => unsigned_value(without_hex_prefixes(trimmed(text@)), 16) == Some(v as int),
            None => match unsigned_value(without_hex_prefixes(trimmed(text@)), 16) {
                Some(n) => n > u32::MAX,
                None => true,
            },
        },
{
    let chars = strip_hex_prefixes(&trim_chars(&chars_of(text)));
    match parse_unsigned(&chars, 16, 0xffff_ffff) {
        Some(v) => Some(v as u32),
        None => None,
    }
}

pub open spec fn card_prefix() -> Seq<char> {
    seq!['c', 'a', 'r', 'd']
}

/// The number of a DRM card directory `card<N>`, where `name` is one: it
/// starts with `card`, the rest reads as a number that fits a `usize`, and it
/// names no connector (holds no `-`).
pub open spec fn card_number(name: Seq<char>) -> Option<int> {
    if name.len() >= 4 && name.take(4) == card_prefix() && !name.contains('-') {
        match unsigned_value(name.skip(4), 10) {
            Some(n) => if n <= usize::MAX {
                Some(n)
            } else {
                None
            },
            None => None,
        }
    } else {
        None
    }
}

/// The number of a DRM card directory `card<N>`.
pub fn card_id(name: &str) -> (id: Option<usize>)
    ensures
        match id {
            Some(n) => card_number(name@) == Some(n as int),
            None => card_number(name@) is None,
        },
{
    let chars = chars_of(name);
    let len = chars.len();
    if len < 4 || chars[0] != 'c' || chars[1] != 'a' || chars[2] != 'r' || chars[3] != 'd' {
        proof {
            if name@.len() >= 4 && name@.take(4) == card_prefix() {
                assert(name@.take(4)[0] == 'c' && name@.take(4)[1] == 'a');
                assert(name@.take(4)[2] == 'r' && name@.take(4)[3] == 'd');
            }
        }
        return None;
    }
    proof {
        assert(name@.take(4) =~= card_prefix());
    }
    let mut i: usize = 0;
    while i < len
        invariant
            len == chars@.len(),
            chars@ == name@,
            i <= len,
            forall|j: int| 0 <= j < i ==> chars@[j] != '-',
        decreases len - i,
    {
        if chars[i] == '-' {
            proof {
                assert(name@[i as int] == '-');
                assert(name@.contains('-'));
            }
            return None;
        }
        i = i + 1;
    }
    let mut rest: Vec<char> = Vec::new();
    let mut k: usize = 4;
    while k < len
        invariant
            len == chars@.len(),
            chars@ == name@,
            4 <= k <= len,
            rest@ == name@.subrange(4, k as int),
        decreases len - k,
    {
        rest.push(chars[k]);
        proof {
            assert(rest@ =~= name@.subrange(4, k + 1));
        }
        k = k + 1;
    }
    proof {
        assert(rest@ =~= name@.skip(4));
    }
    match parse_unsigned(&rest, 10, usize::MAX as u64) {
        Some(v) => Some(v as usize),
        None => None,
    }
}

/// The name a DRM card is shown by: its vendor's name before the directory
/// name, or the directory name alone for an unknown vendor.
pub open spec fn card_label(vendor: Vendor, card: Seq<char>) -> Seq<char> {
    match vendor {
        Vendor::Nvidia => seq!['N', 'V', 'I', 'D', 'I', 'A', ' '] + card,
        Vendor::Amd => seq!['A', 'M', 'D', ' '] + card,
        Vendor::Intel => seq!['I', 'n', 't', 'e', 'l', ' '] + card,
        Vendor::Apple => seq!['A', 'p', 'p', 'l', 'e', ' '] + card,
        Vendor::Unknown => card,
    }
}

/// The name a DRM card is shown by.
pub fn card_name(vendor: Vendor, card: &str) -> (name: String)
    ensures
        name@ == card_label(vendor, card@),
{
    let prefix = match vendor {
        Vendor::Nvidia => {
            proof {
                reveal_strlit("NVIDIA ");
            }
            "NVIDIA "
        },
        Vendor::Amd => {
            proof {
                reveal_strlit("AMD ");
            }
            "AMD "
        },
        Vendor::Intel => {
            proof {
                reveal_strlit("Intel ");
            }
            "Intel "
        },
        Vendor::Apple => {
            proof {
                reveal_strlit("Apple ");
            }
            "Apple "
        },
        Vendor::Unknown => {
            proof {
                reveal_strlit("");
            }
            ""
        },
    };
    let mut name = String::from_str(prefix);
    name.append(card);
    proof {
        assert(name@ =~= card_label(vendor, card@));
    }
    name
}

/// What a DRM card directory tells of one accelerator, read from its files.
pub struct CardReading {
    /// The directory name, such as `card0`.
    pub card: String,
    /// The PCI vendor id from `device/vendor`, where it reads.
    pub vendor_id: Option<u32>,
    /// Total and used video memory in bytes, from the first pair of memory
    /// counter files that both read.
    pub memory: Option<(u64, u64)>,
    /// `device/gpu_busy_percent`, where it reads.
    pub busy_percent: Option<u64>,
}

/// The sample a DRM card directory yields: none for a directory that is no
/// card, for an NVIDIA card where NVML already reported NVIDIA devices, or
/// for a card without readable memory counters.
pub open spec fn card_sample_of(reading: CardReading, skip_nvidia: bool, sample: Option<Sample>) -> bool {
    let vendor = match reading.vendor_id {
        Some(id) => vendor_for(id),
        None => Vendor::Unknown,
    };
    match card_number(reading.card@) {
        None => sample is None,
        Some(id) => if skip_nvidia && vendor == Vendor::Nvidia {
            sample is None
        } else {
            match reading.memory {
                None => sample is None,
                Some((total, used)) => sample matches Some(s) && s.id == id && s.name@ == card_label(
                    vendor,
                    reading.card@,
                ) && s.vendor == vendor && s.budget_bytes == total && s.used_bytes == used
                    && s.utilization_percent == reading.busy_percent,
            }
        },
    }
}

/// The sample a DRM card directory yields.
pub fn card_sample(reading: &CardReading, skip_nvidia: bool) -> (sample: Option<Sample>)
    ensures
        card_sample_of(*reading, skip_nvidia, sample),
{
    let id = match card_id(reading.card.as_str()) {
        Some(id) => id,
        None => return None,
    };
    let vendor = match reading.vendor_id {
        Some(code) => vendor(code),
        None => Vendor::Unknown,
    };
    if skip_nvidia && vendor == Vendor::Nvidia {
        return None;
    }
    let (total, used) = match reading.memory {
        Some(pair) => pair,
        None => return None,
    };
    Some(
        Sample {
            id,
            name: card_name(vendor, reading.card.as_str()),
            vendor,
            budget_bytes: total,
            used_bytes: used,
            utilization_percent: reading.busy_percent,
        },
    )
}

/// Whether `samples` are in order of their ids.
pub open spec fn ordered_by_id(samples: Seq<Sample>) -> bool {
    forall|i: int, j: int| 0 <= i < j < samples.len() ==> #[trigger] samples[i].id <= #[trigger] samples[j].id
}

/// Where a stable insertion puts a sample with id `id` among `sorted`,
/// scanning back from position `p`: after every sample whose id is at most
/// `id`.
pub open spec fn insertion_point(sorted: Seq<Sample>, id: usize, p: int) -> int
    decreases p,
{
    if 0 < p <= sorted.len() && sorted[p - 1].id > id {
        insertion_point(sorted, id, p - 1)
    } else {
        p
    }
}

/// `samples` in the order a stable sort by id leaves them: each sample in
/// turn placed after the earlier samples whose id is no larger.
pub open spec fn stably_sorted_by_id(samples: Seq<Sample>) -> Seq<Sample>
    decreases samples.len(),
{
    if samples.len() == 0 {
        Seq::empty()
    } else {
        let front = stably_sorted_by_id(samples.drop_last());
        front.insert(insertion_point(front, samples.last().id, front.len() as int), samples.last())
    }
}

/// The samples in order of their ids, as a stable sort by id leaves them.
pub fn sort_by_id(samples: Vec<Sample>) -> (sorted: Vec<Sample>)
    ensures
        sorted@ == stably_sorted_by_id(samples@),
        sorted@.to_multiset() == samples@.to_multiset(),
        ordered_by_id(sorted@),
{
    let mut sorted: Vec<Sample> = Vec::new();
    let mut rest = samples;
    let ghost all = rest@;
    let ghost mut done: int = 0;
    proof {
        assert(all.take(0) =~= Seq::<Sample>::empty());
        assert(all.skip(0) =~= all);
    }
    while rest.len() > 0
        invariant
            0 <= done <= all.len(),
            rest@ == all.skip(done),
            sorted@ == stably_sorted_by_id(all.take(done)),
            sorted@.to_multiset() == all.take(done).to_multiset(),
            ordered_by_id(sorted@),
        decreases rest@.len(),
    {
        let sample = rest.remove(0);
        proof {
            assert(sample == all[done]);
            assert(rest@ =~= all.skip(done + 1));
        }
        let id = sample.id;
        let mut pos: usize = sorted.len();
        while pos > 0 && sorted[pos - 1].id > id
            invariant
                pos <= sorted@.len(),
                forall|k: int| pos <= k < sorted@.len() ==> #[trigger] sorted@[k].id > id,
                insertion_point(sorted@, id, sorted@.len() as int) == insertion_point(sorted@, id, pos as int),
            decreases pos,
        {
            pos = pos - 1;
        }
        let ghost old_sorted = sorted@;
        sorted.insert(pos, sample);
        proof {
            let front = all.take(done);
            let next = all.take(done + 1);
            assert(next.drop_last() =~= front);
            assert(next.last() == sample);
            assert(next =~= front.push(sample));
            assert(insertion_point(old_sorted, id, pos as int) == pos);
            assert(sorted@ =~= old_sorted.insert(pos as int, sample));
            assert(sorted@.to_multiset() == old_sorted.to_multiset().insert(sample));
            assert forall|i: int, j: int| 0 <= i < j < sorted@.len() implies #[trigger] sorted@[i].id
                <= #[trigger] sorted@[j].id by {
                if i < pos && j > pos {
                    assert(sorted@[i] == old_sorted[i]);
                    assert(sorted@[j] == old_sorted[j - 1]);
                } else if i < pos && j == pos {
                    assert(sorted@[i] == old_sorted[i]);
                    if pos > 0 {
                        assert(old_sorted[pos - 1].id <= id);
                    }
                } else if i == pos {
                    assert(sorted@[j] == old_sorted[j - 1]);
                } else if i > pos {
                    assert(sorted@[i] == old_sorted[i - 1]);
                    assert(sorted@[j] == old_sorted[j - 1]);
                } else {
                    assert(sorted@[i] == old_sorted[i]);
                    assert(sorted@[j] == old_sorted[j]);
                }
            }
            done = done + 1;
        }
    }
    proof {
        assert(all.take(done) =~= all);
    }
    sorted
}

/// The samples among `results` that were read, in order.
pub open spec fn read_samples(results: Seq<Result<Sample, String>>) -> Seq<Sample>
    decreases results.len(),
{
    if results.len() == 0 {
        Seq::empty()
    } else {
        match results.last() {
            Ok(sample) => read_samples(results.drop_last()).push(sample),
            Err(_) => read_samples(results.drop_last()),
        }
    }
}

proof fn lemma_read_samples_nonempty(results: Seq<Result<Sample, String>>)
    requires
        results.len() > 0,
        results[0] is Ok,
    ensures
        read_samples(results).len() > 0,
    decreases results.len(),
{
    if results.len() > 1 {
        let front = results.drop_last();
        assert(front[0] == results[0]);
        lemma_read_samples_nonempty(front);
    }
}

/// What NVML reports over all its devices, given each device's reading: the
/// samples that were read, in device order, or, where devices were
/// enumerated but none could be read, the first device's error.
pub fn gather_samples(results: Vec<Result<Sample, String>>) -> (gathered: Result<Vec<Sample>, String>)
    ensures
        match gathered {
            Ok(samples) => samples@ == read_samples(results@)
                && (samples@.len() == 0 ==> results@.len() == 0),
            Err(error) => results@.len() > 0 && read_samples(results@).len() == 0
                && results@[0] == Err::<Sample, String>(error),
        },
{
    let ghost all = results@;
    let mut rest = results;
    let mut samples: Vec<Sample> = Vec::new();
    let mut first_error: Option<String> = None;
    let mut seen: usize = 0;
    let total = rest.len();
    while rest.len() > 0
        invariant
            total == all.len(),
            seen <= all.len(),
            rest@ == all.skip(seen as int),
            samples@ == read_samples(all.take(seen as int)),
            match first_error {
                Some(error) => seen > 0 && all[0] == Err::<Sample, String>(error),
                None => seen > 0 ==> all[0] is Ok,
            },
        decreases rest@.len(),
    {
        let result = rest.remove(0);
        proof {
            assert(result == all[seen as int]);
            assert(all.take(seen + 1).drop_last() =~= all.take(seen as int));
            assert(all.take(seen + 1).last() == result);
        }
        match result {
            Ok(sample) => {
                samples.push(sample);
            },
            Err(error) => {
                if seen == 0 {
                    first_error = Some(error);
                }
            },
        }
        seen = seen + 1;
        proof {
            assert(rest@ =~= all.skip(seen as int));
        }
    }
    proof {
        assert(all.take(seen as int) =~= all);
        if all.len() > 0 && all[0] is Ok {
            lemma_read_samples_nonempty(all);
        }
    }
    if samples.len() == 0 {
        match first_error {
            Some(error) => return Err(error),
            None => {},
        }
    }
    Ok(samples)
}

/// Whether any of `samples` is an NVIDIA accelerator.
pub fn reports_nvidia(samples: &Vec<Sample>) -> (found: bool)
    ensures
        found == exists|i: int| 0 <= i < samples@.len() && #[trigger] samples@[i].vendor == Vendor::Nvidia,
{
    let mut i: usize = 0;
    while i < samples.len()
        invariant
            i <= samples@.len(),
            forall|j: int| 0 <= j < i ==> #[trigger] samples@[j].vendor != Vendor::Nvidia,
        decreases samples@.len() - i,
    {
        if samples[i].vendor == Vendor::Nvidia {
            return true;
        }
        i = i + 1;
    }
    false
}

/// The accelerators a Linux host reports: NVML's, then the DRM cards', or an
/// error where neither reports any.
pub fn linux_samples(nvml: Vec<Sample>, drm: Vec<Sample>) -> (samples: Result<Vec<Sample>, String>)
    ensures
        match samples {
            Ok(samples) => samples@ == nvml@ + drm@ && samples@.len() > 0,
            Err(_) => nvml@.len() == 0 && drm@.len() == 0,
        },
{
    let mut samples = nvml;
    let mut rest = drm;
    samples.append(&mut rest);
    if samples.len() == 0 {
        Err(String::from_str("no supported Linux accelerator memory provider was found"))
    } else {
        Ok(samples)
    }
}

/// One NVML device's name and busy percentage.
#[derive(Clone, Debug)]
pub struct Utilization {
    pub name: String,
    pub percent: u64,
}

/// The first of `unmatched` from `i` on whose name denotes the same device as `name`.
pub open spec fn first_agreeing(name: Seq<char>, unmatched: Seq<Utilization>, i: int) -> Option<int>
    decreases unmatched.len() - i,
{
    if i < 0 || i >= unmatched.len() {
        None
    } else if names_agree(name, unmatched[i].name@) {
        Some(i)
    } else {
        first_agreeing(name, unmatched, i + 1)
    }
}

/// The NVML device a DXGI adapter named `name` is matched with: the first
/// unmatched one whose name agrees, else the only one left.
pub open spec fn matched_with(name: Seq<char>, unmatched: Seq<Utilization>) -> Option<int> {
    match first_agreeing(name, unmatched, 0) {
        Some(p) => Some(p),
        None => if unmatched.len() == 1 {
            Some(0)
        } else {
            None
        },
    }
}

/// The busy percentage each adapter ends with when NVIDIA adapters, in
/// order, are matched with NVML devices, each device used at most once.
pub open spec fn matched_utilization(samples: Seq<Sample>, unmatched: Seq<Utilization>) -> Seq<Option<u64>>
    decreases samples.len(),
{
    if samples.len() == 0 {
        Seq::empty()
    } else {
        let sample = samples[0];
        let rest = samples.drop_first();
        if sample.vendor == Vendor::Nvidia {
            match matched_with(sample.name@, unmatched) {
                Some(p) => seq![Some(unmatched[p].percent)] + matched_utilization(rest, unmatched.remove(p)),
                None => seq![sample.utilization_percent] + matched_utilization(rest, unmatched),
            }
        } else {
            seq![sample.utilization_percent] + matched_utilization(rest, unmatched)
        }
    }
}

proof fn lemma_matched_utilization_len(samples: Seq<Sample>, unmatched: Seq<Utilization>)
    ensures
        matched_utilization(samples, unmatched).len() == samples.len(),
    decreases samples.len(),
{
    if samples.len() > 0 {
        let rest = samples.drop_first();
        lemma_matched_utilization_len(rest, unmatched);
        if samples[0].vendor == Vendor::Nvidia {
            match matched_with(samples[0].name@, unmatched) {
                Some(p) => lemma_matched_utilization_len(rest, unmatched.remove(p)),
                None => {},
            }
        }
    }
}

proof fn lemma_first_agreeing_in_range(name: Seq<char>, unmatched: Seq<Utilization>, i: int)
    requires
        0 <= i,
    ensures
        first_agreeing(name, unmatched, i) matches Some(p) ==> i <= p < unmatched.len(),
    decreases unmatched.len() - i,
{
    if i < unmatched.len() {
        lemma_first_agreeing_in_range(name, unmatched, i + 1);
    }
}

fn find_match(name: &str, unmatched: &Vec<Utilization>) -> (position: Option<usize>)
    ensures
        match position {
            Some(p) => matched_with(name@, unmatched@) == Some(p as int),
            None => matched_with(name@, unmatched@) is None,
        },
{
    let mut i: usize = 0;
    while i < unmatched.len()
        invariant
            i <= unmatched@.len(),
            first_agreeing(name@, unmatched@, 0) == first_agreeing(name@, unmatched@, i as int),
        decreases unmatched@.len() - i,
    {
        if crate::pipeline::resources::names_match(name, unmatched[i].name.as_str()) {
            return Some(i);
        }
        i = i + 1;
    }
    if unmatched.len() == 1 {
        Some(0)
    } else {
        None
    }
}

/// Gives each NVIDIA adapter, in order, the busy percentage of the NVML
/// device matched with it, using each device at most once; every other
/// adapter, and every field but the percentage, stays as it was.
pub fn apply_utilization(samples: &mut Vec<Sample>, devices: Vec<Utilization>)
    ensures
        final(samples)@.len() == old(samples)@.len(),
        forall|i: int| 0 <= i < old(samples)@.len() ==> {
            let before = #[trigger] old(samples)@[i];
            let after = final(samples)@[i];
            &&& after.id == before.id
            &&& after.name == before.name
            &&& after.vendor == before.vendor
            &&& after.budget_bytes == before.budget_bytes
            &&& after.used_bytes == before.used_bytes
            &&& after.utilization_percent == matched_utilization(old(samples)@, devices@)[i]
        },
{
    let ghost initial = samples@;
    let ghost expected = matched_utilization(initial, devices@);
    let mut unmatched = devices;
    let mut i: usize = 0;
    proof {
        lemma_matched_utilization_len(initial, devices@);
        assert(initial.skip(0) =~= initial);
    }
    while i < samples.len()
        invariant
            samples@.len() == initial.len(),
            i <= initial.len(),
            expected == matched_utilization(initial, devices@),
            expected.len() == initial.len(),
            expected.skip(i as int) == matched_utilization(initial.skip(i as int), unmatched@),
            forall|k: int| i <= k < initial.len() ==> #[trigger] samples@[k] == initial[k],
            forall|k: int| 0 <= k < i ==> {
                let before = #[trigger] initial[k];
                let after = samples@[k];
                &&& after.id == before.id
                &&& after.name == before.name
                &&& after.vendor == before.vendor
                &&& after.budget_bytes == before.budget_bytes
                &&& after.used_bytes == before.used_bytes
                &&& after.utilization_percent == expected[k]
            },
        decreases initial.len() - i,
    {
        let ghost tail = initial.skip(i as int);
        proof {
            assert(tail[0] == initial[i as int]);
            assert(tail.drop_first() =~= initial.skip(i + 1));
            lemma_matched_utilization_len(tail, unmatched@);
        }
        if samples[i].vendor == Vendor::Nvidia {
            let position = find_match(samples[i].name.as_str(), &unmatched);
            match position {
                Some(p) => {
                    proof {
                        lemma_first_agreeing_in_range(samples@[i as int].name@, unmatched@, 0);
                    }
                    let device = unmatched.remove(p);
                    let mut sample = samples[i].copied();
                    sample.utilization_percent = Some(device.percent);
                    samples.set(i, sample);
                    proof {
                        assert(expected.skip(i as int)[0] == expected[i as int]);
                        assert(expected.skip(i + 1) =~= expected.skip(i as int).drop_first());
                    }
                },
                None => {
                    proof {
                        assert(expected.skip(i as int)[0] == expected[i as int]);
                        assert(expected.skip(i + 1) =~= expected.skip(i as int).drop_first());
                    }
                },
            }
        } else {
            proof {
                assert(expected.skip(i as int)[0] == expected[i as int]);
                assert(expected.skip(i + 1) =~= expected.skip(i as int).drop_first());
            }
        }
        i = i + 1;
    }
}

/// The length of a UTF-16 name stored in a fixed buffer: up to its first
/// zero unit, or the whole buffer where it has none.
pub open spec fn name_length(units: Seq<u16>) -> int {
    if exists|i: int| 0 <= i < units.len() && units[i] == 0 {
        choose|i: int| 0 <= i < units.len() && units[i] == 0 && forall|j: int| 0 <= j < i ==> units[j] != 0
    } else {
        units.len() as int
    }
}

/// The UTF-16 code units `units` decoded with every unpaired surrogate
/// replaced by U+FFFD: a high surrogate (0xD800..=0xDBFF) followed by a low
/// one (0xDC00..=0xDFFF) makes one character, any other surrogate a
/// replacement character, and any other unit the character it encodes.
pub open spec fn utf16_lossy(units: Seq<u16>) -> Seq<char>
    decreases units.len(),
{
    if units.len() == 0 {
        Seq::empty()
    } else if 0xD800 <= units[0] <= 0xDBFF && units.len() >= 2 && 0xDC00 <= units[1] <= 0xDFFF {
        seq![(0x10000 + (units[0] - 0xD800) * 0x400 + (units[1] - 0xDC00)) as char] + utf16_lossy(units.skip(2))
    } else if 0xD800 <= units[0] <= 0xDFFF {
        seq!['\u{FFFD}'] + utf16_lossy(units.skip(1))
    } else {
        seq![units[0] as char] + utf16_lossy(units.skip(1))
    }
}

/// Decodes UTF-16 through std's `String::from_utf16_lossy`, which std
/// documents as decoding the units and putting the replacement character
/// U+FFFD in place of each unpaired surrogate.
#[verifier::external_body]
fn decode_utf16_lossy(units: &[u16]) -> (text: String)
    ensures
        text@ == utf16_lossy(units@),
{
    String::from_utf16_lossy(units)
}

/// The name in a fixed UTF-16 buffer: the units before the first zero,
/// decoded with unpaired surrogates replaced.
pub fn utf16_name(units: &Vec<u16>) -> (name: String)
    ensures
        name@ == utf16_lossy(units@.take(name_length(units@))),
{
    let mut end: usize = 0;
    while end < units.len() && units[end] != 0
        invariant
            end <= units@.len(),
            forall|j: int| 0 <= j < end ==> units@[j] != 0,
        decreases units@.len() - end,
    {
        end = end + 1;
    }
    let mut kept: Vec<u16> = Vec::new();
    let mut i: usize = 0;
    while i < end
        invariant
            end <= units@.len(),
            i <= end,
            kept@ == units@.take(i as int),
        decreases end - i,
    {
        kept.push(units[i]);
        proof {
            assert(kept@ =~= units@.take(i + 1));
        }
        i = i + 1;
    }
    proof {
        if end < units@.len() {
            assert(units@[end as int] == 0);
            let c = choose|k: int| 0 <= k < units@.len() && units@[k] == 0 && forall|j: int| 0 <= j < k ==> units@[j] != 0;
            assert(c == end as int) by {
                if c < end {
                    assert(units@[c] != 0);
                }
                if c > end {
                    assert(units@[end as int] != 0);
                }
            }
        }
    }
    decode_utf16_lossy(kept.as_slice())
}

} // verus!
