use vstd::prelude::*;

verus! {

/// The tokens of `s` in the order they first occur, each once.
pub open spec fn first_occurrences(s: Seq<i64>) -> Seq<i64>
    decreases s.len(),
{
    if s.len() == 0 {
        Seq::empty()
    } else {
        let earlier = first_occurrences(s.drop_last());
        if earlier.contains(s.last()) {
            earlier
        } else {
            earlier.push(s.last())
        }
    }
}

/// The tokens penalised for repetition are the generated ones, each listed
/// once.
pub proof fn lemma_first_occurrences(s: Seq<i64>)
    ensures
        first_occurrences(s).no_duplicates(),
        forall|x: i64| first_occurrences(s).contains(x) <==> s.contains(x),
    decreases s.len(),
{
    if s.len() > 0 {
        let rest = s.drop_last();
        lemma_first_occurrences(rest);
        assert(s =~= rest.push(s.last()));
        assert forall|x: i64| first_occurrences(s).contains(x) <==> s.contains(x) by {
            if s.contains(x) && x != s.last() {
                let i = choose|i: int| 0 <= i < s.len() && s[i] == x;
                assert(rest[i] == x);
            }
            if rest.contains(x) {
                let i = choose|i: int| 0 <= i < rest.len() && rest[i] == x;
                assert(s[i] == x);
            }
            if first_occurrences(s).contains(x) && !first_occurrences(rest).contains(x) {
                assert(x == s.last());
                assert(s[s.len() - 1] == x);
            }
            if x == s.last() {
                assert(s[s.len() - 1] == x);
                let f = first_occurrences(rest);
                if !f.contains(x) {
                    assert(f.push(x)[f.len() as int] == x);
                }
            }
            if first_occurrences(rest).contains(x) {
                let f = first_occurrences(rest);
                let i = choose|i: int| 0 <= i < f.len() && f[i] == x;
                if !f.contains(s.last()) {
                    assert(f.push(s.last())[i] == x);
                }
            }
        }
    }
}

/// What the greedy decoding loop does after a token was chosen.
#[derive(Clone, Copy, Debug, PartialEq, Eq, Structural)]
pub enum DecodeAction {
    /// Generation is over.
    Stop,
    /// Feed `token` back at rotary position `position`; `newly_seen` tells
    /// whether it joins the tokens penalised for repetition.
    Feed { token: i64, position: i64, newly_seen: bool },
}

/// The state of PaddleOCR-VL's greedy decoding: the tokens generated so
/// far, the distinct ones among them that later choices are penalised for,
/// and the bounds of the run.
pub struct GreedyDecoding {
    pub generated: Vec<i64>,
    pub seen: Vec<i64>,
    pub max_new_tokens: usize,
    pub input_length: i64,
    pub rope_delta: i64,
    pub eos_token_id: i64,
    pub finished: bool,
}

impl GreedyDecoding {
    /// What holds between steps: no end-of-sequence token was generated,
    /// the bound is kept, and while the run goes on the penalised tokens are
    /// the distinct generated ones.
    pub open spec fn well_formed(&self) -> bool {
        &&& self.generated@.len() <= self.max_new_tokens
        &&& !self.generated@.contains(self.eos_token_id)
        &&& !self.finished ==> self.generated@.len() < self.max_new_tokens
        &&& !self.finished ==> self.seen@ == first_occurrences(self.generated@)
        &&& self.max_new_tokens <= 0x1000_0000_0000_0000
        &&& 0 <= self.input_length <= 0x1000_0000_0000_0000
        &&& -0x2000_0000_0000_0000 <= self.rope_delta <= 0x2000_0000_0000_0000
    }

    /// A run of at most `max_new_tokens` tokens after a prompt of
    /// `input_length` tokens whose rotary positions end `rope_delta` away
    /// from its length; a run of no tokens is over at once.
    pub fn new(max_new_tokens: usize, input_length: i64, rope_delta: i64, eos_token_id: i64) -> (decoding: Self)
        requires
            max_new_tokens <= 0x1000_0000_0000_0000,
            0 <= input_length <= 0x1000_0000_0000_0000,
            -0x2000_0000_0000_0000 <= rope_delta <= 0x2000_0000_0000_0000,
        ensures
            decoding.well_formed(),
            decoding.generated@ == Seq::<i64>::empty(),
            decoding.seen@ == Seq::<i64>::empty(),
            decoding.max_new_tokens == max_new_tokens,
            decoding.input_length == input_length,
            decoding.rope_delta == rope_delta,
            decoding.eos_token_id == eos_token_id,
            decoding.finished == (max_new_tokens == 0),
    {
        let decoding = GreedyDecoding {
            generated: Vec::new(),
            seen: Vec::new(),
            max_new_tokens,
            input_length,
            rope_delta,
            eos_token_id,
            finished: max_new_tokens == 0,
        };
        assert(decoding.seen@ =~= first_occurrences(decoding.generated@));
        decoding
    }

    /// Takes the chosen `token`: the end-of-sequence token stops the run
    /// without being kept; any other is kept, and the run stops once the
    /// bound is reached, else the token is fed back at the position after
    /// the prompt's and the earlier tokens', and joins the penalised tokens
    /// if it is new.
    pub fn step(&mut self, token: i64) -> (action: DecodeAction)
        requires
            old(self).well_formed(),
            !old(self).finished,
        ensures
            final(self).well_formed(),
            final(self).max_new_tokens == old(self).max_new_tokens,
            final(self).input_length == old(self).input_length,
            final(self).rope_delta == old(self).rope_delta,
            final(self).eos_token_id == old(self).eos_token_id,
            token == old(self).eos_token_id ==> {
                &&& action == DecodeAction::Stop
                &&& final(self).finished
                &&& final(self).generated@ == old(self).generated@
            },
            token != old(self).eos_token_id ==> {
                &&& final(self).generated@ == old(self).generated@.push(token)
                &&& final(self).finished == (final(self).generated@.len() == old(self).max_new_tokens)
                &&& final(self).finished ==> action == DecodeAction::Stop
                &&& !final(self).finished ==> action == DecodeAction::Feed {
                    token,
                    position: (old(self).input_length + old(self).generated@.len() + old(self).rope_delta) as i64,
                    newly_seen: !old(self).seen@.contains(token),
                }
            },
    {
        if token == self.eos_token_id {
            self.finished = true;
            return DecodeAction::Stop;
        }
        let step = self.generated.len();
        self.generated.push(token);
        proof {
            assert(self.generated@.drop_last() =~= old(self).generated@);
            assert forall|x: i64| #[trigger] self.generated@.contains(x) implies x != self.eos_token_id by {
                let i = choose|i: int| 0 <= i < self.generated@.len() && self.generated@[i] == x;
                if i < old(self).generated@.len() {
                    assert(old(self).generated@[i] == x);
                }
            }
        }
        if self.generated.len() == self.max_new_tokens {
            self.finished = true;
            return DecodeAction::Stop;
        }
        let mut newly_seen = true;
        let mut k: usize = 0;
        while k < self.seen.len()
            invariant
                0 <= k <= self.seen@.len(),
                newly_seen == !self.seen@.take(k as int).contains(token),
            decreases self.seen@.len() - k,
        {
            if self.seen[k] == token {
                newly_seen = false;
            }
            proof {
                let prev = self.seen@.take(k as int);
                let next = self.seen@.take(k + 1);
                assert(next =~= prev.push(self.seen@[k as int]));
                if next.contains(token) {
                    let i = choose|i: int| 0 <= i < next.len() && next[i] == token;
                    if i < k {
                        assert(prev[i] == token);
                    }
                }
                if prev.contains(token) {
                    let i = choose|i: int| 0 <= i < prev.len() && prev[i] == token;
                    assert(next[i] == token);
                }
                if self.seen@[k as int] == token {
                    assert(next[k as int] == token);
                }
            }
            k = k + 1;
        }
        proof {
            assert(self.seen@.take(self.seen@.len() as int) =~= self.seen@);
        }
        if newly_seen {
            self.seen.push(token);
        }
        let position = self.input_length + step as i64 + self.rope_delta;
        DecodeAction::Feed { token, position, newly_seen }
    }
}

} // verus!
