use vstd::prelude::*;

verus! {

/// A candidate carried on to the next beam: its rank among the candidates,
/// the beam it extends, and the token it appends.
#[derive(Clone, Copy, Debug, PartialEq, Eq, Structural)]
pub struct BeamChoice {
    pub rank: usize,
    pub beam: i64,
    pub token: i64,
}

/// A candidate that ends its beam with the end-of-sequence token: its rank
/// and the beam it ends.
#[derive(Clone, Copy, Debug, PartialEq, Eq, Structural)]
pub struct FinishedBeam {
    pub rank: usize,
    pub beam: i64,
}

/// The outcome of one beam search step over ranked candidates.
pub struct BeamSelection {
    pub continued: Vec<BeamChoice>,
    pub finished: Vec<FinishedBeam>,
}

/// Why a beam search step cannot go on.
#[derive(Clone, Copy, Debug, PartialEq, Eq, Structural)]
pub enum BeamError {
    /// Too few candidates go on to fill the next beam.
    Unfilled,
}

/// Walks the ranked `candidates` (flat indices `beam * vocab_size + token`)
/// from `rank` on: a candidate whose token is `eos` ends its beam, and is
/// kept as finished when it ranks among the first `beams`; any other
/// candidate is carried on, and the walk stops once `beams` are carried.
pub open spec fn beam_scan(
    candidates: Seq<i64>,
    vocab_size: int,
    eos: int,
    beams: int,
    rank: int,
    continued: Seq<BeamChoice>,
    finished: Seq<FinishedBeam>,
) -> (Seq<BeamChoice>, Seq<FinishedBeam>)
    decreases candidates.len() - rank,
{
    if rank < 0 || rank >= candidates.len() {
        (continued, finished)
    } else {
        let beam = candidates[rank] as int / vocab_size;
        let token = candidates[rank] as int % vocab_size;
        if token == eos {
            let finished = if rank < beams {
                finished.push(FinishedBeam { rank: rank as usize, beam: beam as i64 })
            } else {
                finished
            };
            beam_scan(candidates, vocab_size, eos, beams, rank + 1, continued, finished)
        } else {
            let continued = continued.push(BeamChoice { rank: rank as usize, beam: beam as i64, token: token as i64 });
            if continued.len() == beams {
                (continued, finished)
            } else {
                beam_scan(candidates, vocab_size, eos, beams, rank + 1, continued, finished)
            }
        }
    }
}

/// Candidate `f.rank` is among the first `beams`, its token is `eos`, and
/// `f.beam` is the beam it extends.
pub open spec fn ends_top_beam(candidates: Seq<i64>, vocab_size: int, eos: int, beams: int, f: FinishedBeam) -> bool {
    &&& 0 <= f.rank < candidates.len()
    &&& f.rank < beams
    &&& candidates[f.rank as int] as int % vocab_size == eos
    &&& f.beam == (candidates[f.rank as int] as int / vocab_size) as i64
}

proof fn lemma_scan_finishes(
    candidates: Seq<i64>,
    vocab_size: int,
    eos: int,
    beams: int,
    rank: int,
    continued: Seq<BeamChoice>,
    finished: Seq<FinishedBeam>,
)
    requires
        0 <= rank,
        candidates.len() <= usize::MAX,
        continued.len() <= rank,
        forall|k: int| 0 <= k < finished.len() ==> ends_top_beam(candidates, vocab_size, eos, beams, #[trigger] finished[k]),
    ensures
        ({
            let result = beam_scan(candidates, vocab_size, eos, beams, rank, continued, finished).1;
            &&& finished.len() <= result.len()
            &&& forall|k: int| 0 <= k < finished.len() ==> #[trigger] result[k] == finished[k]
            &&& forall|k: int| 0 <= k < result.len() ==> ends_top_beam(candidates, vocab_size, eos, beams, #[trigger] result[k])
            &&& forall|r: int|
                rank <= r < candidates.len() && r < beams && #[trigger] candidates[r] as int % vocab_size == eos
                    ==> result.contains(FinishedBeam { rank: r as usize, beam: (candidates[r] as int / vocab_size) as i64 })
        }),
    decreases candidates.len() - rank,
{
    if rank < candidates.len() {
        let beam = candidates[rank] as int / vocab_size;
        let token = candidates[rank] as int % vocab_size;
        if token == eos {
            let item = FinishedBeam { rank: rank as usize, beam: beam as i64 };
            let next = if rank < beams {
                finished.push(item)
            } else {
                finished
            };
            assert forall|k: int| 0 <= k < next.len() implies ends_top_beam(candidates, vocab_size, eos, beams, #[trigger] next[k]) by {
                if k < finished.len() {
                    assert(next[k] == finished[k]);
                }
            }
            lemma_scan_finishes(candidates, vocab_size, eos, beams, rank + 1, continued, next);
            let result = beam_scan(candidates, vocab_size, eos, beams, rank, continued, finished).1;
            assert(result == beam_scan(candidates, vocab_size, eos, beams, rank + 1, continued, next).1);
            assert forall|k: int| 0 <= k < finished.len() implies #[trigger] result[k] == finished[k] by {
                assert(result[k] == next[k]);
            }
            if rank < beams {
                assert(result[finished.len() as int] == item);
                assert(result.contains(item));
            }
        } else {
            let carried = continued.push(BeamChoice { rank: rank as usize, beam: beam as i64, token: token as i64 });
            if carried.len() != beams {
                lemma_scan_finishes(candidates, vocab_size, eos, beams, rank + 1, carried, finished);
            }
        }
    }
}

/// Every candidate ranked among the first `beams` whose token is `eos` ends
/// its beam as a finished hypothesis, and no other candidate does: the
/// finished list holds exactly such candidates, each with the beam it
/// extends.
pub proof fn lemma_top_endings_finish(candidates: Seq<i64>, vocab_size: int, eos: int, beams: int)
    requires
        candidates.len() <= usize::MAX,
    ensures
        ({
            let finished = beam_scan(candidates, vocab_size, eos, beams, 0, Seq::empty(), Seq::empty()).1;
            &&& forall|r: int|
                0 <= r < candidates.len() && r < beams && #[trigger] candidates[r] as int % vocab_size == eos
                    ==> finished.contains(FinishedBeam { rank: r as usize, beam: (candidates[r] as int / vocab_size) as i64 })
            &&& forall|k: int| 0 <= k < finished.len() ==> ends_top_beam(candidates, vocab_size, eos, beams, #[trigger] finished[k])
        }),
{
    lemma_scan_finishes(candidates, vocab_size, eos, beams, 0, Seq::empty(), Seq::empty());
}

/// Chooses the next beams from candidates ranked best first, as a beam
/// search step does: the walk of `beam_scan` over all of them, which must
/// carry exactly `beams` candidates on.
pub fn select_beams(candidates: &Vec<i64>, vocab_size: i64, eos: i64, beams: usize) -> (selection: Result<
    BeamSelection,
    BeamError,
>)
    requires
        1 <= vocab_size,
        forall|i: int| 0 <= i < candidates@.len() ==> 0 <= #[trigger] candidates@[i],
    ensures
        ({
            let (continued, finished) = beam_scan(
                candidates@,
                vocab_size as int,
                eos as int,
                beams as int,
                0,
                Seq::empty(),
                Seq::empty(),
            );
            match selection {
                Ok(selection) => continued.len() == beams && selection.continued@ == continued
                    && selection.finished@ == finished && (forall|i: int|
                    0 <= i < continued.len() ==> (#[trigger] continued[i]).token != eos) && (forall|r: int|
                    0 <= r < candidates@.len() && r < beams && #[trigger] candidates@[r] as int % vocab_size as int
                        == eos ==> selection.finished@.contains(
                        FinishedBeam { rank: r as usize, beam: (candidates@[r] as int / vocab_size as int) as i64 },
                    )) && (forall|k: int|
                    0 <= k < selection.finished@.len() ==> ends_top_beam(
                        candidates@,
                        vocab_size as int,
                        eos as int,
                        beams as int,
                        #[trigger] selection.finished@[k],
                    )),
                Err(error) => continued.len() != beams && error == BeamError::Unfilled,
            }
        }),
{
    let mut continued: Vec<BeamChoice> = Vec::new();
    let mut finished: Vec<FinishedBeam> = Vec::new();
    let mut rank: usize = 0;
    let ghost whole = beam_scan(candidates@, vocab_size as int, eos as int, beams as int, 0, Seq::empty(), Seq::empty());
    proof {
        lemma_scan_carries_no_end(candidates@, vocab_size as int, eos as int, beams as int, 0, Seq::empty(), Seq::empty());
        assert(candidates@.len() == candidates.len());
        lemma_top_endings_finish(candidates@, vocab_size as int, eos as int, beams as int);
    }
    while rank < candidates.len()
        invariant_except_break
            0 <= rank <= candidates@.len(),
            1 <= vocab_size,
            forall|i: int| 0 <= i < candidates@.len() ==> 0 <= #[trigger] candidates@[i],
            beams > 0 ==> continued@.len() < beams,
            whole == beam_scan(
                candidates@,
                vocab_size as int,
                eos as int,
                beams as int,
                rank as int,
                continued@,
                finished@,
            ),
        ensures
            whole == (continued@, finished@),
        decreases candidates@.len() - rank,
    {
        let flat = candidates[rank];
        let beam = flat / vocab_size;
        let token = flat % vocab_size;
        if token == eos {
            if rank < beams {
                finished.push(FinishedBeam { rank, beam });
            }
        } else {
            continued.push(BeamChoice { rank, beam, token });
            if continued.len() == beams {
                break;
            }
        }
        rank = rank + 1;
    }
    if continued.len() == beams {
        Ok(BeamSelection { continued, finished })
    } else {
        Err(BeamError::Unfilled)
    }
}

/// A copy of a token sequence.
fn copy_tokens(tokens: &Vec<i64>) -> (copy: Vec<i64>)
    ensures
        copy@ == tokens@,
{
    let copy = tokens.clone();
    assert(copy@ =~= tokens@);
    copy
}

/// The beams a search starts from: `beams` sequences holding only the
/// decoder's start token.
pub fn initial_beams(start_token: i64, beams: usize) -> (sequences: Vec<Vec<i64>>)
    ensures
        sequences@.len() == beams,
        forall|i: int| 0 <= i < beams ==> (#[trigger] sequences@[i])@ == seq![start_token],
{
    let mut sequences: Vec<Vec<i64>> = Vec::new();
    while sequences.len() < beams
        invariant
            sequences@.len() <= beams,
            forall|i: int| 0 <= i < sequences@.len() ==> (#[trigger] sequences@[i])@ == seq![start_token],
        decreases beams - sequences@.len(),
    {
        let mut start: Vec<i64> = Vec::new();
        start.push(start_token);
        assert(start@ =~= seq![start_token]);
        sequences.push(start);
    }
    sequences
}

/// The next beams: each carried candidate's beam with its token appended,
/// in the order the candidates were carried.
pub fn next_beams(sequences: &Vec<Vec<i64>>, continued: &Vec<BeamChoice>) -> (next: Vec<Vec<i64>>)
    requires
        forall|i: int| 0 <= i < continued@.len() ==> 0 <= #[trigger] continued@[i].beam < sequences@.len(),
    ensures
        next@.len() == continued@.len(),
        forall|i: int|
            0 <= i < continued@.len() ==> (#[trigger] next@[i])@ == sequences@[continued@[i].beam as int]@.push(
                continued@[i].token,
            ),
{
    let mut next: Vec<Vec<i64>> = Vec::new();
    let mut k: usize = 0;
    while k < continued.len()
        invariant
            k <= continued@.len(),
            next@.len() == k,
            forall|i: int| 0 <= i < continued@.len() ==> 0 <= #[trigger] continued@[i].beam < sequences@.len(),
            forall|i: int|
                0 <= i < k ==> (#[trigger] next@[i])@ == sequences@[continued@[i].beam as int]@.push(continued@[i].token),
        decreases continued@.len() - k,
    {
        let choice = continued[k];
        assert(choice == continued@[k as int]);
        let count = sequences.len();
        assert(0 <= choice.beam < count);
        let mut sequence = copy_tokens(&sequences[choice.beam as usize]);
        sequence.push(choice.token);
        next.push(sequence);
        k = k + 1;
    }
    next
}

/// The sequences that end with the end-of-sequence token this step, as
/// their beams stood, in the order the endings were kept.
pub fn finished_sequences(sequences: &Vec<Vec<i64>>, finished: &Vec<FinishedBeam>) -> (ended: Vec<Vec<i64>>)
    requires
        forall|i: int| 0 <= i < finished@.len() ==> 0 <= #[trigger] finished@[i].beam < sequences@.len(),
    ensures
        ended@.len() == finished@.len(),
        forall|i: int| 0 <= i < finished@.len() ==> (#[trigger] ended@[i])@ == sequences@[finished@[i].beam as int]@,
{
    let mut ended: Vec<Vec<i64>> = Vec::new();
    let mut k: usize = 0;
    while k < finished.len()
        invariant
            k <= finished@.len(),
            ended@.len() == k,
            forall|i: int| 0 <= i < finished@.len() ==> 0 <= #[trigger] finished@[i].beam < sequences@.len(),
            forall|i: int| 0 <= i < k ==> (#[trigger] ended@[i])@ == sequences@[finished@[i].beam as int]@,
        decreases finished@.len() - k,
    {
        let ending = finished[k];
        assert(ending == finished@[k as int]);
        let count = sequences.len();
        assert(0 <= ending.beam < count);
        ended.push(copy_tokens(&sequences[ending.beam as usize]));
        k = k + 1;
    }
    ended
}

/// Whether a search whose beams hold `length` tokens takes another step.
pub fn continues(length: usize, max_length: usize) -> (more: bool)
    ensures
        more == (length < max_length),
{
    length < max_length
}

/// The answer a search gives for its best hypothesis: the hypothesis, with
/// the end-of-sequence token appended where it is shorter than the length
/// bound.
pub fn closed_answer(best: Vec<i64>, max_length: usize, eos: i64) -> (answer: Vec<i64>)
    ensures
        answer@ == if best@.len() < max_length { best@.push(eos) } else { best@ },
{
    let mut answer = best;
    if answer.len() < max_length {
        answer.push(eos);
    }
    answer
}

/// A beam as the search keeps it: the start token, then tokens none of
/// which ends the sequence.
pub open spec fn well_shaped(sequence: Seq<i64>, start_token: i64, eos: i64) -> bool {
    &&& sequence.len() >= 1
    &&& sequence[0] == start_token
    &&& forall|k: int| 1 <= k < sequence.len() ==> #[trigger] sequence[k] != eos
}

/// The walk of `beam_scan` carries no candidate whose token ends the
/// sequence.
pub proof fn lemma_scan_carries_no_end(
    candidates: Seq<i64>,
    vocab_size: int,
    eos: int,
    beams: int,
    rank: int,
    continued: Seq<BeamChoice>,
    finished: Seq<FinishedBeam>,
)
    requires
        1 <= vocab_size <= i64::MAX,
        forall|i: int| 0 <= i < continued.len() ==> (#[trigger] continued[i]).token as int != eos,
    ensures
        forall|i: int|
            0 <= i < beam_scan(candidates, vocab_size, eos, beams, rank, continued, finished).0.len()
                ==> (#[trigger] beam_scan(candidates, vocab_size, eos, beams, rank, continued, finished).0[i]).token as int
                != eos,
    decreases candidates.len() - rank,
{
    if !(rank < 0 || rank >= candidates.len()) {
        let token = candidates[rank] as int % vocab_size;
        if token == eos {
            let finished2 = if rank < beams {
                finished.push(FinishedBeam { rank: rank as usize, beam: (candidates[rank] as int / vocab_size) as i64 })
            } else {
                finished
            };
            lemma_scan_carries_no_end(candidates, vocab_size, eos, beams, rank + 1, continued, finished2);
            assert(beam_scan(candidates, vocab_size, eos, beams, rank, continued, finished) == beam_scan(
                candidates,
                vocab_size,
                eos,
                beams,
                rank + 1,
                continued,
                finished2,
            ));
        } else {
            let c2 = continued.push(
                BeamChoice {
                    rank: rank as usize,
                    beam: (candidates[rank] as int / vocab_size) as i64,
                    token: token as i64,
                },
            );
            assert forall|i: int| 0 <= i < c2.len() implies (#[trigger] c2[i]).token as int != eos by {
                if i < continued.len() {
                    assert(c2[i] == continued[i]);
                } else {
                    assert(0 <= token < vocab_size) by (nonlinear_arith)
                        requires
                            token == candidates[rank] as int % vocab_size,
                            vocab_size >= 1,
                    ;
                    assert(c2[i].token == token as i64);
                }
            }
            if c2.len() != beams {
                lemma_scan_carries_no_end(candidates, vocab_size, eos, beams, rank + 1, c2, finished);
                assert(beam_scan(candidates, vocab_size, eos, beams, rank, continued, finished) == beam_scan(
                    candidates,
                    vocab_size,
                    eos,
                    beams,
                    rank + 1,
                    c2,
                    finished,
                ));
            } else {
                assert(beam_scan(candidates, vocab_size, eos, beams, rank, continued, finished) == (c2, finished));
            }
        }
    }
}

/// Beams of equal length that are well shaped stay so after a step that
/// appends tokens none of which ends the sequence, one token longer.
pub proof fn lemma_step_keeps_beam_shape(
    sequences: Seq<Seq<i64>>,
    next: Seq<Seq<i64>>,
    continued: Seq<BeamChoice>,
    start_token: i64,
    eos: i64,
    length: nat,
)
    requires
        forall|i: int| 0 <= i < sequences.len() ==> (#[trigger] sequences[i]).len() == length && well_shaped(
            sequences[i],
            start_token,
            eos,
        ),
        forall|i: int| 0 <= i < continued.len() ==> 0 <= #[trigger] continued[i].beam < sequences.len() && continued[i].token != eos,
        next.len() == continued.len(),
        forall|i: int| 0 <= i < continued.len() ==> #[trigger] next[i] == sequences[continued[i].beam as int].push(continued[i].token),
    ensures
        forall|i: int| 0 <= i < next.len() ==> (#[trigger] next[i]).len() == length + 1 && well_shaped(next[i], start_token, eos),
{
    assert forall|i: int| 0 <= i < next.len() implies (#[trigger] next[i]).len() == length + 1 && well_shaped(
        next[i],
        start_token,
        eos,
    ) by {
        let b = continued[i].beam as int;
        assert(0 <= continued[i].beam < sequences.len() && continued[i].token != eos);
        assert(sequences[b].len() == length && well_shaped(sequences[b], start_token, eos));
        let n = next[i];
        assert forall|k: int| 1 <= k < n.len() implies #[trigger] n[k] != eos by {
            if k < sequences[b].len() {
                assert(n[k] == sequences[b][k]);
            }
        }
    }
}

/// A search's answer from a well-shaped hypothesis no longer than the
/// length bound: it starts with the start token, holds the end token
/// nowhere before its last place, stays within the bound, and ends with the
/// end token when the hypothesis was shorter than the bound.
pub proof fn lemma_answer_shape(best: Seq<i64>, max_length: int, start_token: i64, eos: i64)
    requires
        well_shaped(best, start_token, eos),
        best.len() <= max_length,
    ensures
        ({
            let answer = if best.len() < max_length { best.push(eos) } else { best };
            &&& answer[0] == start_token
            &&& forall|k: int| 1 <= k < answer.len() - 1 ==> #[trigger] answer[k] != eos
            &&& answer.len() <= max_length
            &&& best.len() < max_length ==> answer.last() == eos
        }),
{
    let answer = if best.len() < max_length { best.push(eos) } else { best };
    assert forall|k: int| 1 <= k < answer.len() - 1 implies #[trigger] answer[k] != eos by {
        assert(answer[k] == best[k]);
    }
}

} // verus!
