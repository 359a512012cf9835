//! The pair producer: turns an input symbol sequence into the
//! `(context, next symbol)` training pairs that learning consumes.

use vstd::prelude::*;

use crate::key::{advanced, all_sentinel, MarkovKey};
use crate::SENTINEL;

verus! {

/// The training pairs produced from `text` when the current context is `k`:
/// one pair per input symbol, then one final `(context, SENTINEL)` pair.
pub open spec fn pairs_from(k: Seq<u8>, text: Seq<u8>) -> Seq<(Seq<u8>, u8)>
    decreases text.len(),
{
    if text.len() == 0 {
        seq![(k, SENTINEL)]
    } else {
        seq![(k, text[0])] + pairs_from(advanced(k, text[0]), text.drop_first())
    }
}

/// All training pairs of an input, starting from the all-sentinel context.
pub open spec fn spec_pairs(text: Seq<u8>) -> Seq<(Seq<u8>, u8)> {
    pairs_from(all_sentinel(), text)
}

/// An input of `L` symbols yields exactly `L + 1` pairs, and the final pair
/// carries the sentinel as its successor symbol.
pub proof fn lemma_pairs_count(k: Seq<u8>, text: Seq<u8>)
    ensures
        pairs_from(k, text).len() == text.len() + 1,
        pairs_from(k, text).last().1 == SENTINEL,
    decreases text.len(),
{
    if text.len() > 0 {
        lemma_pairs_count(advanced(k, text[0]), text.drop_first());
        assert(pairs_from(k, text).last() == pairs_from(
            advanced(k, text[0]),
            text.drop_first(),
        ).last());
    }
}

/// The training pairs of `source`: for each input symbol the context it was
/// seen in, then one final pair recording that the last context ends an input.
pub fn markov_pairs(source: &[u8]) -> (out: Vec<(MarkovKey, u8)>)
    ensures
        out@.len() == spec_pairs(source@).len(),
        out@.len() == source@.len() + 1,
        forall|i: int|
            0 <= i < out@.len() ==> (#[trigger] out@[i]).0@ == spec_pairs(source@)[i].0
                && out@[i].1 == spec_pairs(source@)[i].1,
{
    let ghost ps = spec_pairs(source@);
    proof {
        lemma_pairs_count(all_sentinel(), source@);
        assert(source@.skip(0) =~= source@);
    }
    let mut out: Vec<(MarkovKey, u8)> = Vec::new();
    let mut cur = MarkovKey::new();
    let mut idx: usize = 0;
    while idx < source.len()
        invariant
            0 <= idx <= source@.len(),
            ps == spec_pairs(source@),
            ps.len() == source@.len() + 1,
            out@.len() == idx,
            forall|i: int|
                0 <= i < idx ==> (#[trigger] out@[i]).0@ == ps[i].0 && out@[i].1 == ps[i].1,
            pairs_from(cur@, source@.skip(idx as int)) == ps.skip(idx as int),
        decreases source@.len() - idx,
    {
        let ghost rest = source@.skip(idx as int);
        let sym = source[idx];
        proof {
            assert(rest[0] == source@[idx as int]);
            assert(ps.skip(idx as int)[0] == ps[idx as int]);
        }
        out.push((cur, sym));
        proof {
            let tail = pairs_from(advanced(cur@, sym), rest.drop_first());
            assert((seq![(cur@, sym)] + tail)[0] == (cur@, sym));
            assert((seq![(cur@, sym)] + tail).drop_first() =~= tail);
            assert(ps.skip(idx as int).drop_first() =~= ps.skip(idx + 1));
            assert(rest.drop_first() =~= source@.skip(idx + 1));
        }
        cur = cur.next(sym);
        idx += 1;
    }
    proof {
        assert(source@.skip(idx as int).len() == 0);
        assert(ps.skip(idx as int)[0] == ps[idx as int]);
        assert(pairs_from(cur@, source@.skip(idx as int))[0] == (cur@, SENTINEL));
    }
    out.push((cur, SENTINEL));
    out
}

} // verus!
