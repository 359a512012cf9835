//! Frequency distribution: per-context occurrence counts for every observed
//! successor symbol, with a running total.

use vstd::prelude::*;

use crate::rand::Rand;

verus! {

/// A frequency distribution: a running total plus one `(count, symbol)` entry
/// per distinct successor symbol ever observed after some context.
#[derive(Debug)]
pub struct MarkovValue {
    total: u32,
    entries: Vec<(u32, u8)>,
}

impl View for MarkovValue {
    type V = Seq<(nat, u8)>;

    closed spec fn view(&self) -> Seq<(nat, u8)> {
        self.entries@.map_values(|e: (u32, u8)| (e.0 as nat, e.1))
    }
}

/// The sum of the per-symbol counts of a distribution.
pub open spec fn sum_counts(es: Seq<(nat, u8)>) -> nat
    decreases es.len(),
{
    if es.len() == 0 {
        0
    } else {
        es[0].0 + sum_counts(es.drop_first())
    }
}

/// The count recorded for one symbol (0 when the symbol was never observed).
pub open spec fn count_of(es: Seq<(nat, u8)>, sym: u8) -> nat
    decreases es.len(),
{
    if es.len() == 0 {
        0
    } else {
        (if es[0].1 == sym {
            es[0].0
        } else {
            0
        }) + count_of(es.drop_first(), sym)
    }
}

/// Whether a distribution holds an entry for `sym`.
pub open spec fn has_sym(es: Seq<(nat, u8)>, sym: u8) -> bool {
    exists|i: int| 0 <= i < es.len() && es[i].1 == sym
}

/// No symbol appears in two entries: repeats are aggregated into one count.
pub open spec fn unique_syms(es: Seq<(nat, u8)>) -> bool {
    forall|i: int, j: int| 0 <= i < j < es.len() ==> es[i].1 != es[j].1
}

/// Well-formed entries: symbols unique and every count at least one.
pub open spec fn wf_entries(es: Seq<(nat, u8)>) -> bool {
    unique_syms(es) && forall|i: int| 0 <= i < es.len() ==> (#[trigger] es[i]).0 >= 1
}

/// The symbol the weighted walk selects for a draw of `target`: walk the
/// entries in order, subtracting each count from `target`, and stop at the
/// first entry whose count exceeds what is left.
pub open spec fn spec_pick(es: Seq<(nat, u8)>, target: nat) -> u8
    decreases es.len(),
{
    if es.len() == 0 {
        0
    } else if target < es[0].0 {
        es[0].1
    } else {
        spec_pick(es.drop_first(), (target - es[0].0) as nat)
    }
}

/// The entries after one more observation of `sym`: the matching entry's
/// count grows by one, or a fresh `(1, sym)` entry is appended.
pub open spec fn spec_add(es: Seq<(nat, u8)>, sym: u8) -> Seq<(nat, u8)> {
    if has_sym(es, sym) {
        let i = choose|i: int| 0 <= i < es.len() && es[i].1 == sym;
        es.update(i, ((es[i].0 + 1) as nat, sym))
    } else {
        es.push((1nat, sym))
    }
}

proof fn lemma_count_of_absent(es: Seq<(nat, u8)>, sym: u8)
    requires
        !has_sym(es, sym),
    ensures
        count_of(es, sym) == 0,
    decreases es.len(),
{
    if es.len() > 0 {
        assert(!has_sym(es.drop_first(), sym)) by {
            if has_sym(es.drop_first(), sym) {
                let i = choose|i: int|
                    0 <= i < es.drop_first().len() && es.drop_first()[i].1 == sym;
                assert(es[i + 1].1 == sym);
            }
        }
        lemma_count_of_absent(es.drop_first(), sym);
    }
}

proof fn lemma_count_le_sum(es: Seq<(nat, u8)>, i: int)
    requires
        0 <= i < es.len(),
    ensures
        es[i].0 <= sum_counts(es),
    decreases es.len(),
{
    if i > 0 {
        lemma_count_le_sum(es.drop_first(), i - 1);
    }
}

proof fn lemma_unique_drop_first(es: Seq<(nat, u8)>)
    requires
        unique_syms(es),
        es.len() > 0,
    ensures
        unique_syms(es.drop_first()),
{
    assert forall|i: int, j: int|
        0 <= i < j < es.drop_first().len() implies es.drop_first()[i].1
        != es.drop_first()[j].1 by {
        assert(es[i + 1].1 != es[j + 1].1);
    }
}

/// With unique symbols, the count recorded for an entry's symbol is exactly
/// that entry's count.
pub proof fn lemma_count_of_at(es: Seq<(nat, u8)>, i: int)
    requires
        unique_syms(es),
        0 <= i < es.len(),
    ensures
        count_of(es, es[i].1) == es[i].0,
    decreases es.len(),
{
    let sym = es[i].1;
    if i == 0 {
        assert(!has_sym(es.drop_first(), sym)) by {
            if has_sym(es.drop_first(), sym) {
                let j = choose|j: int|
                    0 <= j < es.drop_first().len() && es.drop_first()[j].1 == sym;
                assert(es[j + 1].1 == sym);
            }
        }
        lemma_count_of_absent(es.drop_first(), sym);
    } else {
        lemma_unique_drop_first(es);
        lemma_count_of_at(es.drop_first(), i - 1);
        assert(es.drop_first()[i - 1] == es[i]);
    }
}

proof fn lemma_count_of_update(es: Seq<(nat, u8)>, i: int, e: (nat, u8), sym: u8)
    requires
        0 <= i < es.len(),
    ensures
        count_of(es.update(i, e), sym) + (if es[i].1 == sym {
            es[i].0
        } else {
            0nat
        }) == count_of(es, sym) + (if e.1 == sym {
            e.0
        } else {
            0nat
        }),
    decreases es.len(),
{
    if i == 0 {
        assert(es.update(0, e).drop_first() =~= es.drop_first());
    } else {
        assert(es.update(i, e).drop_first() =~= es.drop_first().update(i - 1, e));
        lemma_count_of_update(es.drop_first(), i - 1, e, sym);
    }
}

proof fn lemma_sum_update(es: Seq<(nat, u8)>, i: int, e: (nat, u8))
    requires
        0 <= i < es.len(),
    ensures
        sum_counts(es.update(i, e)) + es[i].0 == sum_counts(es) + e.0,
    decreases es.len(),
{
    if i == 0 {
        assert(es.update(0, e).drop_first() =~= es.drop_first());
    } else {
        assert(es.update(i, e).drop_first() =~= es.drop_first().update(i - 1, e));
        lemma_sum_update(es.drop_first(), i - 1, e);
    }
}

proof fn lemma_count_of_push(es: Seq<(nat, u8)>, e: (nat, u8), sym: u8)
    ensures
        count_of(es.push(e), sym) == count_of(es, sym) + (if e.1 == sym {
            e.0
        } else {
            0nat
        }),
    decreases es.len(),
{
    assert(es.push(e)[0] == if es.len() == 0 {
        e
    } else {
        es[0]
    });
    if es.len() == 0 {
        assert(es.push(e).drop_first() =~= Seq::<(nat, u8)>::empty());
        assert(count_of(Seq::<(nat, u8)>::empty(), sym) == 0);
    } else {
        assert(es.push(e).drop_first() =~= es.drop_first().push(e));
        lemma_count_of_push(es.drop_first(), e, sym);
    }
}

proof fn lemma_sum_push(es: Seq<(nat, u8)>, e: (nat, u8))
    ensures
        sum_counts(es.push(e)) == sum_counts(es) + e.0,
    decreases es.len(),
{
    assert(es.push(e)[0] == if es.len() == 0 {
        e
    } else {
        es[0]
    });
    if es.len() == 0 {
        assert(es.push(e).drop_first() =~= Seq::<(nat, u8)>::empty());
        assert(sum_counts(Seq::<(nat, u8)>::empty()) == 0);
    } else {
        assert(es.push(e).drop_first() =~= es.drop_first().push(e));
        lemma_sum_push(es.drop_first(), e);
    }
}

/// The distribution-level invariant law, stated over the unbounded model so
/// no machine-word headroom is assumed: one more observation of `sym` keeps
/// the entries well formed (symbols unique, counts positive), grows the sum
/// and the count of `sym` by exactly one, and touches no other symbol's count.
pub proof fn lemma_spec_add(es: Seq<(nat, u8)>, sym: u8)
    requires
        wf_entries(es),
    ensures
        wf_entries(spec_add(es, sym)),
        sum_counts(spec_add(es, sym)) == sum_counts(es) + 1,
        count_of(spec_add(es, sym), sym) == count_of(es, sym) + 1,
        forall|x: u8| x != sym ==> count_of(spec_add(es, sym), x) == count_of(es, x),
        spec_add(es, sym).len() >= es.len(),
        spec_add(es, sym).len() >= 1,
{
    if has_sym(es, sym) {
        let i = choose|i: int| 0 <= i < es.len() && es[i].1 == sym;
        let e = ((es[i].0 + 1) as nat, sym);
        lemma_sum_update(es, i, e);
        lemma_count_of_update(es, i, e, sym);
        assert forall|x: u8| x != sym implies count_of(spec_add(es, sym), x) == count_of(
            es,
            x,
        ) by {
            lemma_count_of_update(es, i, e, x);
        }
        assert(wf_entries(es.update(i, e)));
    } else {
        let e = (1nat, sym);
        lemma_sum_push(es, e);
        lemma_count_of_push(es, e, sym);
        assert forall|x: u8| x != sym implies count_of(spec_add(es, sym), x) == count_of(
            es,
            x,
        ) by {
            lemma_count_of_push(es, e, x);
        }
        assert forall|i: int, j: int|
            0 <= i < j < es.push(e).len() implies es.push(e)[i].1 != es.push(e)[j].1 by {
            if j < es.len() {
                assert(es[i].1 != es[j].1);
            } else {
                assert(es.push(e)[j].1 == sym);
            }
        }
    }
}

impl MarkovValue {
    /// The stored running total.
    pub closed spec fn total_spec(&self) -> nat {
        self.total as nat
    }

    /// The distribution's invariant: entries well formed and the stored total
    /// equal to the sum of the per-symbol counts.
    pub open spec fn wf(&self) -> bool {
        wf_entries(self@) && self.total_spec() == sum_counts(self@)
    }

    /// A distribution recording a single observation of `val`.
    pub fn from_char(val: u8) -> (r: MarkovValue)
        ensures
            r.wf(),
            r@ == seq![(1nat, val)],
            r.total_spec() == 1,
    {
        let mut entries: Vec<(u32, u8)> = Vec::new();
        entries.push((1, val));
        let r = MarkovValue { total: 1, entries };
        proof {
            assert(r@ =~= seq![(1nat, val)]);
            assert(r@[0] == (1nat, val));
            assert(r@.drop_first() =~= Seq::<(nat, u8)>::empty());
            assert(sum_counts(Seq::<(nat, u8)>::empty()) == 0);
            assert(sum_counts(r@) == 1);
        }
        r
    }

    /// Record one more observation of `val`: the total grows by one and so
    /// does the count of `val`, while every other symbol's count is kept.
    #[verifier::loop_isolation(false)]
    pub fn add(&mut self, val: u8)
        requires
            old(self).wf(),
            old(self).total_spec() < u32::MAX,
        ensures
            final(self).wf(),
            final(self)@ == spec_add(old(self)@, val),
            final(self).total_spec() == old(self).total_spec() + 1,
            count_of(final(self)@, val) == count_of(old(self)@, val) + 1,
            forall|x: u8| x != val ==> count_of(final(self)@, x) == count_of(old(self)@, x),
            final(self)@.len() >= 1,
    {
        let ghost es = old(self)@;
        proof {
            lemma_spec_add(es, val);
        }
        self.total = self.total + 1;
        let mut idx: usize = 0;
        while idx < self.entries.len()
            invariant
                self.entries@ == old(self).entries@,
                self.total == old(self).total + 1,
                es == old(self)@,
                es.len() == self.entries@.len(),
                wf_entries(es),
                sum_counts(es) < u32::MAX,
                0 <= idx <= self.entries@.len(),
                forall|j: int| 0 <= j < idx ==> (#[trigger] self.entries@[j]).1 != val,
            decreases self.entries@.len() - idx,
        {
            let e = self.entries[idx];
            if e.1 == val {
                proof {
                    assert(es[idx as int] == ((e.0 as nat, e.1)));
                    lemma_count_le_sum(es, idx as int);
                }
                self.entries[idx] = (e.0 + 1, val);
                proof {
                    assert(has_sym(es, val)) by {
                        assert(es[idx as int].1 == val);
                    }
                    let i = choose|i: int| 0 <= i < es.len() && es[i].1 == val;
                    assert(i == idx as int) by {
                        if i < idx as int {
                            assert(es[i].1 != es[idx as int].1);
                        } else if i > idx as int {
                            assert(es[idx as int].1 != es[i].1);
                        }
                    }
                    assert(self@ =~= spec_add(es, val));
                }
                return;
            }
            idx += 1;
        }
        self.entries.push((1, val));
        proof {
            assert(!has_sym(es, val)) by {
                if has_sym(es, val) {
                    let i = choose|i: int| 0 <= i < es.len() && es[i].1 == val;
                    assert(old(self).entries@[i].1 == val);
                }
            }
            assert(self@ =~= spec_add(es, val));
        }
    }

    /// Sample one successor symbol, each with probability proportional to its
    /// count: draw a target below the total and walk the entries as
    /// [`spec_pick`] describes. The walk always finds a match because the
    /// total equals the sum of the counts.
    #[verifier::loop_isolation(false)]
    pub fn pick(&self, rng: &mut Rand) -> (r: u8)
        requires
            self.wf(),
            self@.len() > 0,
        ensures
            count_of(self@, r) > 0,
            exists|t: nat| t < self.total_spec() && r == spec_pick(self@, t),
    {
        proof {
            lemma_count_le_sum(self@, 0);
        }
        let mut target = rng.next_below(self.total);
        let ghost drawn = target as nat;
        let mut idx: usize = 0;
        proof {
            assert(self@.skip(0) =~= self@);
        }
        while idx < self.entries.len()
            invariant
                self.wf(),
                0 <= idx <= self.entries@.len(),
                self@.len() == self.entries@.len(),
                (target as nat) < sum_counts(self@.skip(idx as int)),
                drawn < self.total_spec(),
                spec_pick(self@, drawn) == spec_pick(self@.skip(idx as int), target as nat),
            decreases self.entries@.len() - idx,
        {
            let e = self.entries[idx];
            proof {
                assert(self@[idx as int] == ((e.0 as nat, e.1)));
                assert(self@.skip(idx as int)[0] == self@[idx as int]);
                assert(self@.skip(idx as int).drop_first() =~= self@.skip(idx + 1));
            }
            if target < e.0 {
                proof {
                    lemma_count_of_at(self@, idx as int);
                    assert(spec_pick(self@, drawn) == e.1);
                }
                return e.1;
            }
            target = target - e.0;
            idx += 1;
        }
        proof {
            assert(self@.skip(idx as int).len() == 0);
            assert(false);
        }
        0
    }

    /// The count recorded for `sym`, 0 when it was never observed.
    #[verifier::loop_isolation(false)]
    pub fn count_for(&self, sym: u8) -> (r: u32)
        requires
            self.wf(),
        ensures
            r as nat == count_of(self@, sym),
    {
        let mut idx: usize = 0;
        while idx < self.entries.len()
            invariant
                self.wf(),
                0 <= idx <= self.entries@.len(),
                self@.len() == self.entries@.len(),
                forall|j: int| 0 <= j < idx ==> (#[trigger] self@[j]).1 != sym,
            decreases self.entries@.len() - idx,
        {
            let e = self.entries[idx];
            proof {
                assert(self@[idx as int] == ((e.0 as nat, e.1)));
            }
            if e.1 == sym {
                proof {
                    lemma_count_of_at(self@, idx as int);
                }
                return e.0;
            }
            idx += 1;
        }
        proof {
            assert(!has_sym(self@, sym));
            lemma_count_of_absent(self@, sym);
        }
        0
    }

    /// The stored total occurrence count.
    pub fn total_count(&self) -> (r: u32)
        ensures
            r as nat == self.total_spec(),
    {
        self.total
    }

    /// The distinct symbols observed, in entry order.
    pub fn symbols(&self) -> (out: Vec<u8>)
        ensures
            out@.len() == self@.len(),
            forall|i: int| 0 <= i < out@.len() ==> out@[i] == self@[i].1,
    {
        let mut out: Vec<u8> = Vec::new();
        let mut idx: usize = 0;
        while idx < self.entries.len()
            invariant
                0 <= idx <= self.entries@.len(),
                self@.len() == self.entries@.len(),
                out@.len() == idx,
                forall|i: int| 0 <= i < idx ==> out@[i] == self@[i].1,
            decreases self.entries@.len() - idx,
        {
            out.push(self.entries[idx].1);
            idx += 1;
        }
        out
    }
}

} // verus!
