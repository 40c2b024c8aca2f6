//! How far a file may be scattered over xorbs.
//!
//! Once a file's recent terms average too few chunks, a matched run shorter than
//! that average is stored again rather than referenced, so that a read stays a few
//! large ranges instead of many small ones.
use std::collections::VecDeque;

use vstd::prelude::*;

verus! {

/// Terms over which the mean is taken.
pub const WINDOW: usize = 128;

/// Chunks that this many terms must hold: eight each, when the rule is strict.
pub const STRICT_CHUNKS: usize = 1024;

/// Chunks that this many terms must hold when the rule is not strict: half of
/// that.
pub const LOOSE_CHUNKS: usize = 512;

/// What the rule knows of a file's terms.
#[verifier::ext_equal]
pub struct Spread {
    /// Chunks per term, over the last terms.
    pub window: Seq<nat>,
    /// Chunks in all of those terms.
    pub chunks: nat,
    /// The mean was too low when it was last looked at.
    pub strict: bool,
}

pub open spec fn sum(s: Seq<nat>) -> nat
    decreases s.len(),
{
    if s.len() == 0 {
        0
    } else {
        sum(s.drop_last()) + s.last()
    }
}

impl Spread {
    pub open spec fn empty() -> Spread {
        Spread { window: Seq::empty(), chunks: 0, strict: false }
    }

    pub open spec fn wf(self) -> bool {
        &&& self.window.len() <= WINDOW
        &&& sum(self.window) == self.chunks
    }

    /// After a term of `n` chunks, which was either merged into the last term or
    /// appended. The oldest term leaves a full window.
    pub open spec fn recorded(self, n: nat, merged: bool) -> Spread {
        if merged {
            Spread {
                window: self.window.update(self.window.len() - 1, self.window.last() + n),
                chunks: self.chunks + n,
                strict: self.strict,
            }
        } else {
            let all = self.window.push(n);
            if all.len() > WINDOW {
                Spread {
                    window: all.drop_first(),
                    chunks: (self.chunks + n - all[0]) as nat,
                    strict: self.strict,
                }
            } else {
                Spread { window: all, chunks: self.chunks + n, strict: self.strict }
            }
        }
    }

    /// Fewer chunks per term than the rule asks for: eight, or four where the mean
    /// was high enough the last time. A window that is not full yet is never
    /// scattered.
    pub open spec fn scattered(self) -> bool {
        self.window.len() >= WINDOW && self.chunks < if self.strict {
            STRICT_CHUNKS
        } else {
            LOOSE_CHUNKS
        }
    }

    /// Whether a matched run of `n` chunks may be referenced: not where the file is
    /// scattered and the run is shorter than the mean.
    pub open spec fn admits(self, n: nat) -> bool {
        !(self.scattered() && n * self.window.len() < self.chunks)
    }

    /// After the rule was asked about a run of `n` chunks.
    pub open spec fn asked(self, n: nat) -> Spread {
        let strict = if self.window.len() < WINDOW {
            self.strict
        } else if !self.scattered() {
            false
        } else if !self.admits(n) {
            true
        } else {
            self.strict
        };
        Spread { strict, ..self }
    }
}

pub struct Defrag {
    pub window: VecDeque<usize>,
    pub chunks: usize,
    pub strict: bool,
}

impl View for Defrag {
    type V = Spread;

    open spec fn view(&self) -> Spread {
        Spread {
            window: Seq::new(self.window@.len(), |i: int| self.window@[i] as nat),
            chunks: self.chunks as nat,
            strict: self.strict,
        }
    }
}

impl Defrag {
    pub fn new() -> (r: Defrag)
        ensures
            r@ == Spread::empty(),
            r@.wf(),
    {
        let r = Defrag { window: VecDeque::new(), chunks: 0, strict: false };
        assert(r@ =~= Spread::empty());
        r
    }

    pub fn record(&mut self, n: usize, merged: bool)
        requires
            old(self)@.wf(),
            old(self).chunks + n <= usize::MAX,
            merged ==> old(self)@.window.len() > 0,
        ensures
            final(self)@ == old(self)@.recorded(n as nat, merged),
            final(self)@.wf(),
    {
        let ghost before = self@;
        self.chunks = self.chunks + n;
        if merged {
            let last = self.window.pop_back();
            match last {
                Some(last) => {
                    proof {
                        assert(before.window.last() == last);
                        lemma_sum_bound(before.window);
                    }
                    self.window.push_back(last + n);
                },
                None => {},
            }
            proof {
                let after = before.recorded(n as nat, true);
                assert(self@.window =~= after.window);
                assert(after.window.drop_last() =~= before.window.drop_last());
            }
            return;
        }
        self.window.push_back(n);
        let ghost all = before.window.push(n as nat);
        proof {
            assert(all.drop_last() =~= before.window);
            lemma_sum_first(all);
        }
        if self.window.len() > WINDOW {
            let first = self.window.pop_front();
            match first {
                Some(first) => {
                    assert(all[0] == first);
                    self.chunks = self.chunks - first;
                },
                None => {},
            }
            assert(self@.window =~= all.drop_first());
        } else {
            assert(self@.window =~= all);
        }
    }

    pub fn allow(&mut self, n: usize) -> (r: bool)
        requires
            old(self)@.wf(),
        ensures
            r == old(self)@.admits(n as nat),
            final(self)@ == old(self)@.asked(n as nat),
            final(self)@.wf(),
    {
        let ghost before = self@;
        if self.window.len() < WINDOW {
            assert(self@ =~= before.asked(n as nat));
            return true;
        }
        let target: usize = if self.strict {
            STRICT_CHUNKS
        } else {
            LOOSE_CHUNKS
        };
        if self.chunks >= target {
            self.strict = false;
            assert(self@ =~= before.asked(n as nat));
        } else if n < 8 && n * WINDOW < self.chunks {
            self.strict = true;
            assert(self@ =~= before.asked(n as nat));
            return false;
        } else {
            assert(self@ =~= before.asked(n as nat));
        }
        true
    }
}

proof fn lemma_sum_bound(s: Seq<nat>)
    requires
        s.len() > 0,
    ensures
        s.last() <= sum(s),
{
}

pub proof fn lemma_sum_first(s: Seq<nat>)
    requires
        s.len() > 0,
    ensures
        sum(s) == s[0] + sum(s.drop_first()),
    decreases s.len(),
{
    if s.len() == 1 {
        assert(s.drop_first() =~= Seq::<nat>::empty());
        assert(s.drop_last() =~= Seq::<nat>::empty());
    } else {
        lemma_sum_first(s.drop_last());
        assert(s.drop_first().drop_last() =~= s.drop_last().drop_first());
    }
}

/// The rule looks at the last 128 terms and at nothing before them, and it knows how many
/// chunks they have.
pub proof fn law_window_is_the_last_terms(s: Spread, n: nat)
    requires
        s.wf(),
    ensures
        ({
            let t = s.recorded(n, false);
            let all = s.window.push(n);
            let from = if all.len() > 128 {
                all.len() - 128
            } else {
                0
            };
            &&& t.window == all.subrange(from, all.len() as int)
            &&& t.chunks == sum(t.window)
            &&& t.strict == s.strict
        }),
        s.window.len() > 0 ==> ({
            let t = s.recorded(n, true);
            &&& t.window.len() == s.window.len()
            &&& t.window.last() == s.window.last() + n
            &&& forall|i: int|
                0 <= i < s.window.len() - 1 ==> #[trigger] t.window[i] == s.window[i]
            &&& t.chunks == s.chunks + n
            &&& t.strict == s.strict
        }),
{
    let all = s.window.push(n);
    let t = s.recorded(n, false);
    assert(all.drop_last() =~= s.window);
    lemma_sum_first(all);
    if all.len() > 128 {
        assert(t.window =~= all.subrange(1, all.len() as int));
    } else {
        assert(t.window =~= all.subrange(0, all.len() as int));
    }
}

/// A run is turned down exactly where the last 128 terms have fewer chunks than they should,
/// eight each once one was turned down and four each before that, and the run is shorter than
/// their mean. So a file with fewer terms is never told to store a chunk again, nor is a run
/// of eight chunks or more ever turned down, nor one that is longer than one that is not.
pub proof fn law_only_short_runs_of_a_scattered_file_are_refused(s: Spread, n: nat)
    requires
        s.wf(),
    ensures
        s.admits(n) <==> s.window.len() < 128 || s.chunks >= (if s.strict {
            1024nat
        } else {
            512nat
        }) || 128 * n >= s.chunks,
        n >= 8 ==> s.admits(n),
        s.admits(n) ==> s.admits(n + 1),
        s.asked(n).window == s.window,
        s.asked(n).chunks == s.chunks,
        !s.admits(n) ==> s.asked(n).strict,
        s.window.len() == 128 && s.chunks >= (if s.strict {
            1024nat
        } else {
            512nat
        }) ==> !s.asked(n).strict,
        s.window.len() < 128 ==> s.asked(n).strict == s.strict,
        s.admits(n) && s.asked(n).strict ==> s.strict,
        s.asked(n).admits(n) ==> s.admits(n),
{
    let w = s.window.len();
    assert(w == 128 ==> n * w == 128 * n) by (nonlinear_arith);
    assert(w == 128 ==> (n + 1) * w == 128 * n + 128) by (nonlinear_arith);
}

/// The same of the calls: whatever is recorded and whatever is asked, in any state.
pub proof fn law_rule_is_kept_by_its_calls(n: usize)
    ensures
        forall|d: &mut Defrag, r: bool| #[trigger]
            call_ensures(Defrag::allow, (d, n), r) && (*d)@.wf() ==> {
                let few = (*d)@.window.len() == 128 && (*d).chunks < (if (*d).strict {
                    1024usize
                } else {
                    512usize
                });
                &&& r <==> !(few && 128 * n < (*d).chunks)
                &&& (*final(d))@.window == (*d)@.window
                &&& (*final(d)).chunks == (*d).chunks
                &&& !r ==> (*final(d)).strict
                &&& (*d)@.window.len() == 128 && !few ==> !(*final(d)).strict
                &&& (*d)@.window.len() < 128 || (few && r) ==> (*final(d)).strict == (*d).strict
            },
{
    assert forall|d: &mut Defrag, r: bool| #[trigger]
        call_ensures(Defrag::allow, (d, n), r) && (*d)@.wf() implies {
        let few = (*d)@.window.len() == 128 && (*d).chunks < (if (*d).strict {
            1024usize
        } else {
            512usize
        });
        &&& r <==> !(few && 128 * n < (*d).chunks)
        &&& (*final(d))@.window == (*d)@.window
        &&& (*final(d)).chunks == (*d).chunks
        &&& !r ==> (*final(d)).strict
        &&& (*d)@.window.len() == 128 && !few ==> !(*final(d)).strict
        &&& (*d)@.window.len() < 128 || (few && r) ==> (*final(d)).strict == (*d).strict
    } by {
        let s = (*d)@;
        law_only_short_runs_of_a_scattered_file_are_refused(s, n as nat);
        assert((*final(d))@ == s.asked(n as nat));
        assert((*final(d))@.strict == (*final(d)).strict);
        assert((*final(d))@.chunks == (*final(d)).chunks);
    }
}

} // verus!
