//! The context type: a fixed-length sliding window over the last
//! [`MARKOV_ORDER`](crate::MARKOV_ORDER) symbols consumed or generated.

use vstd::prelude::*;

use crate::{MARKOV_ORDER, SENTINEL};

verus! {

broadcast use vstd::array::group_array_axioms;

/// A context: the window of the last [`MARKOV_ORDER`] symbols, oldest first.
/// Pure value semantics: advancing a context yields a new one.
#[derive(Clone, Copy, Debug, PartialEq, Eq, Hash)]
pub struct MarkovKey([u8; MARKOV_ORDER]);

impl View for MarkovKey {
    type V = Seq<u8>;

    closed spec fn view(&self) -> Seq<u8> {
        self.0@
    }
}

/// The all-sentinel context that precedes any input.
pub open spec fn all_sentinel() -> Seq<u8> {
    Seq::new(MARKOV_ORDER as nat, |i: int| SENTINEL)
}

/// A context advanced by one symbol: the oldest symbol dropped, the newest
/// appended.
pub open spec fn advanced(k: Seq<u8>, sym: u8) -> Seq<u8> {
    k.drop_first().push(sym)
}

/// The non-sentinel symbols of a context, in order: the text a seeded
/// generation visibly continues.
pub open spec fn seed_symbols(k: Seq<u8>) -> Seq<u8>
    decreases k.len(),
{
    if k.len() == 0 {
        Seq::empty()
    } else if k.last() == SENTINEL {
        seed_symbols(k.drop_last())
    } else {
        seed_symbols(k.drop_last()).push(k.last())
    }
}

/// The all-sentinel context carries no visible seed text.
pub proof fn lemma_sentinel_run_has_no_seed(k: Seq<u8>)
    requires
        forall|i: int| 0 <= i < k.len() ==> k[i] == SENTINEL,
    ensures
        seed_symbols(k) == Seq::<u8>::empty(),
    decreases k.len(),
{
    if k.len() > 0 {
        lemma_sentinel_run_has_no_seed(k.drop_last());
    }
}

/// The context reached from `k` after consuming each symbol of `syms`, in
/// order.
pub open spec fn ctx_after(k: Seq<u8>, syms: Seq<u8>) -> Seq<u8>
    decreases syms.len(),
{
    if syms.len() == 0 {
        k
    } else {
        ctx_after(advanced(k, syms[0]), syms.drop_first())
    }
}

/// Consuming one more symbol advances the context reached so far.
pub proof fn lemma_ctx_after_snoc(k: Seq<u8>, syms: Seq<u8>, x: u8)
    ensures
        ctx_after(k, syms.push(x)) == advanced(ctx_after(k, syms), x),
    decreases syms.len(),
{
    if syms.len() == 0 {
        assert(syms.push(x)[0] == x);
        assert(syms.push(x).drop_first() =~= Seq::<u8>::empty());
        assert(ctx_after(advanced(k, x), Seq::<u8>::empty()) == advanced(k, x));
    } else {
        assert(syms.push(x)[0] == syms[0]);
        assert(syms.push(x).drop_first() =~= syms.drop_first().push(x));
        lemma_ctx_after_snoc(advanced(k, syms[0]), syms.drop_first(), x);
    }
}

/// The visible seed of a context is at most as long as the context and never
/// holds the sentinel.
pub proof fn lemma_seed_symbols_props(k: Seq<u8>)
    ensures
        seed_symbols(k).len() <= k.len(),
        forall|i: int| 0 <= i < seed_symbols(k).len() ==> seed_symbols(k)[i] != SENTINEL,
    decreases k.len(),
{
    if k.len() > 0 {
        lemma_seed_symbols_props(k.drop_last());
    }
}

impl MarkovKey {
    /// The initial context: all sentinel, meaning "no preceding symbols yet".
    pub fn new() -> (r: MarkovKey)
        ensures
            r@ == all_sentinel(),
    {
        let data = [SENTINEL; MARKOV_ORDER];
        proof {
            assert(data@ =~= all_sentinel());
        }
        MarkovKey(data)
    }

    /// Advance the window: shift every symbol one position toward the front
    /// and place `next` at the end. The receiver is left untouched.
    pub fn next(&self, next: u8) -> (r: MarkovKey)
        ensures
            r@ == advanced(self@, next),
    {
        let mut data = self.0;
        let mut idx: usize = 0;
        while idx < MARKOV_ORDER - 1
            invariant
                0 <= idx <= MARKOV_ORDER - 1,
                forall|j: int| 0 <= j < idx ==> data@[j] == self@[j + 1],
                forall|j: int| idx <= j < MARKOV_ORDER ==> data@[j] == self@[j],
            decreases MARKOV_ORDER - idx,
        {
            data[idx] = data[idx + 1];
            idx += 1;
        }
        data[MARKOV_ORDER - 1] = next;
        proof {
            assert(data@ =~= advanced(self@, next));
        }
        MarkovKey(data)
    }

    /// Structural comparison over the full window, as a table lookup needs.
    pub fn key_equal(&self, other: &MarkovKey) -> (r: bool)
        ensures
            r == (self@ == other@),
    {
        let mut idx: usize = 0;
        while idx < MARKOV_ORDER
            invariant
                0 <= idx <= MARKOV_ORDER,
                forall|j: int| 0 <= j < idx ==> self@[j] == other@[j],
            decreases MARKOV_ORDER - idx,
        {
            if self.0[idx] != other.0[idx] {
                proof {
                    assert(self@[idx as int] != other@[idx as int]);
                }
                return false;
            }
            idx += 1;
        }
        proof {
            assert(self@ =~= other@);
        }
        true
    }

    /// The non-sentinel symbols of the window, oldest first.
    pub fn seed_bytes(&self) -> (out: Vec<u8>)
        ensures
            out@ == seed_symbols(self@),
    {
        let mut out: Vec<u8> = Vec::new();
        let mut idx: usize = 0;
        while idx < MARKOV_ORDER
            invariant
                0 <= idx <= MARKOV_ORDER,
                out@ == seed_symbols(self@.take(idx as int)),
            decreases MARKOV_ORDER - idx,
        {
            proof {
                assert(self@.take(idx + 1).drop_last() =~= self@.take(idx as int));
            }
            if self.0[idx] != SENTINEL {
                out.push(self.0[idx]);
            }
            idx += 1;
        }
        proof {
            assert(self@.take(MARKOV_ORDER as int) =~= self@);
        }
        out
    }
}

} // verus!
