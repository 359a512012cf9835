//! The chain table and the generator that owns it: learning and generation.

use vstd::prelude::*;

use crate::dist::{count_of, lemma_spec_add, spec_add, wf_entries, MarkovValue};
use crate::key::{
    all_sentinel, ctx_after, lemma_ctx_after_snoc, lemma_seed_symbols_props,
    lemma_sentinel_run_has_no_seed, seed_symbols, MarkovKey,
};
use crate::pairs::{lemma_pairs_count, markov_pairs, pairs_from, spec_pairs};
use crate::rand::Rand;
use crate::{MAX_GENERATED, MIN_LEARN_LEN, RETRY_ATTEMPTS, SENTINEL};
use vstd::map::*;
use vstd::utf8::{decode_utf8, encode_utf8, valid_utf8};

verus! {

/// The mathematical model of a chain table: each learned context mapped to
/// the entries of its frequency distribution.
pub type Model = Map<Seq<u8>, Seq<(nat, u8)>>;

/// A text generator exclusively owning one chain table: a mapping from
/// context to the frequency distribution of its observed successor symbols.
#[derive(Debug)]
pub struct MarkovGenerator {
    table: Vec<(MarkovKey, MarkovValue)>,
    mass: u32,
}

/// The model a table holds: its keys' views mapped to its values' views.
pub open spec fn table_model(t: Seq<(MarkovKey, MarkovValue)>) -> Model {
    Map::new(
        |k: Seq<u8>| exists|i: int| 0 <= i < t.len() && t[i].0@ == k,
        |k: Seq<u8>| t[choose|i: int| 0 <= i < t.len() && t[i].0@ == k].1@,
    )
}

/// No context appears twice in the table.
pub open spec fn unique_keys(t: Seq<(MarkovKey, MarkovValue)>) -> bool {
    forall|i: int, j: int| 0 <= i < j < t.len() ==> t[i].0@ != t[j].0@
}

impl View for MarkovGenerator {
    type V = Model;

    closed spec fn view(&self) -> Model {
        table_model(self.table@)
    }
}

/// The count a model records for symbol `sym` after context `ctx`.
pub open spec fn tcount(m: Model, ctx: Seq<u8>, sym: u8) -> nat {
    if m.contains_key(ctx) {
        count_of(m[ctx], sym)
    } else {
        0
    }
}

/// The model after recording one (context, successor) observation.
pub open spec fn spec_train(m: Model, ctx: Seq<u8>, sym: u8) -> Model {
    if m.contains_key(ctx) {
        m.insert(ctx, spec_add(m[ctx], sym))
    } else {
        m.insert(ctx, seq![(1nat, sym)])
    }
}

/// The model after recording a sequence of observations, oldest first.
pub open spec fn spec_train_all(m: Model, ps: Seq<(Seq<u8>, u8)>) -> Model
    decreases ps.len(),
{
    if ps.len() == 0 {
        m
    } else {
        spec_train_all(spec_train(m, ps[0].0, ps[0].1), ps.drop_first())
    }
}

/// The model after learning `text`: unchanged for short inputs, else trained
/// on every pair the pair producer emits for `text`.
pub open spec fn spec_learn(m: Model, text: Seq<u8>) -> Model {
    if text.len() < MIN_LEARN_LEN {
        m
    } else {
        spec_train_all(m, spec_pairs(text))
    }
}

/// Every distribution of a model is well formed.
pub open spec fn model_wf(m: Model) -> bool {
    forall|k: Seq<u8>| #[trigger] m.contains_key(k) ==> wf_entries(m[k]) && m[k].len() >= 1
}

/// What one generation attempt from seed context `ctx` may emit: the
/// context's visible seed first; after it only symbols sampled from the
/// distribution of the context current when each was drawn (the seed context
/// advanced by every symbol emitted so far); never the sentinel; exactly the
/// seed when the seed context was never learned; and, unless the output cap
/// cut the attempt, it stopped at a dead end (final context unlearned) or on
/// sampling the sentinel (which the final context's distribution then holds).
pub open spec fn generated_bytes_from(m: Model, ctx: Seq<u8>, b: Seq<u8>) -> bool {
    let seed = seed_symbols(ctx);
    let end = ctx_after(ctx, b.skip(seed.len() as int));
    &&& b.len() >= seed.len()
    &&& b.take(seed.len() as int) == seed
    &&& forall|i: int| 0 <= i < b.len() ==> b[i] != SENTINEL
    &&& forall|i: int|
        seed.len() <= i < b.len() ==> tcount(
            m,
            ctx_after(ctx, b.subrange(seed.len() as int, i)),
            #[trigger] b[i],
        ) > 0
    &&& !m.contains_key(ctx) ==> b == seed
    &&& b.len() < MAX_GENERATED ==> (!m.contains_key(end) || tcount(m, end, SENTINEL) > 0)
}

/// What a successful generation attempt from seed context `ctx` may return:
/// the decoding of a valid, non-empty byte sequence that
/// [`generated_bytes_from`] admits.
pub open spec fn generated_from(m: Model, ctx: Seq<u8>, s: Seq<char>) -> bool {
    exists|b: Seq<u8>|
        {
            &&& #[trigger] generated_bytes_from(m, ctx, b)
            &&& b.len() > 0
            &&& valid_utf8(b)
            &&& decode_utf8(b) == s
        }
}

/// Output that never grew past the seed, with every sampled symbol counted in
/// the table, can only be the seed itself when the seed context is unlearned.
proof fn lemma_untrained_output_is_seed(m: Model, ctx: Seq<u8>, b: Seq<u8>)
    requires
        seed_symbols(ctx).len() <= b.len(),
        b.take(seed_symbols(ctx).len() as int) == seed_symbols(ctx),
        forall|i: int|
            seed_symbols(ctx).len() <= i < b.len() ==> tcount(
                m,
                ctx_after(ctx, b.subrange(seed_symbols(ctx).len() as int, i)),
                #[trigger] b[i],
            ) > 0,
        !m.contains_key(ctx),
    ensures
        b == seed_symbols(ctx),
{
    let l = seed_symbols(ctx).len() as int;
    if b.len() > l {
        assert(b.subrange(l, l) =~= Seq::<u8>::empty());
        assert(ctx_after(ctx, Seq::<u8>::empty()) == ctx);
        assert(tcount(m, ctx, b[l]) > 0);
        assert(false);
    } else {
        assert(b =~= seed_symbols(ctx));
    }
}

proof fn lemma_choose_key(t: Seq<(MarkovKey, MarkovValue)>, i: int)
    requires
        unique_keys(t),
        0 <= i < t.len(),
    ensures
        (choose|j: int| 0 <= j < t.len() && t[j].0@ == t[i].0@) == i,
{
    assert(exists|j: int| 0 <= j < t.len() && t[j].0@ == t[i].0@) by {
        assert(0 <= i < t.len() && t[i].0@ == t[i].0@);
    }
    let j = choose|j: int| 0 <= j < t.len() && t[j].0@ == t[i].0@;
    if j < i {
        assert(t[j].0@ != t[i].0@);
    } else if j > i {
        assert(t[i].0@ != t[j].0@);
    }
}

/// The model holds each table row under its own key.
proof fn lemma_model_at(t: Seq<(MarkovKey, MarkovValue)>, i: int)
    requires
        unique_keys(t),
        0 <= i < t.len(),
    ensures
        table_model(t).contains_key(t[i].0@),
        table_model(t)[t[i].0@] == t[i].1@,
{
    lemma_choose_key(t, i);
}

/// Appending a row with a fresh key inserts exactly that association.
proof fn lemma_model_push(t: Seq<(MarkovKey, MarkovValue)>, k: MarkovKey, v: MarkovValue)
    requires
        unique_keys(t),
        forall|i: int| 0 <= i < t.len() ==> (#[trigger] t[i]).0@ != k@,
    ensures
        unique_keys(t.push((k, v))),
        table_model(t.push((k, v))) == table_model(t).insert(k@, v@),
{
    let t2 = t.push((k, v));
    assert(t2[t.len() as int] == (k, v));
    assert forall|i: int, j: int| 0 <= i < j < t2.len() implies t2[i].0@ != t2[j].0@ by {
        if j < t.len() {
            assert(t[i].0@ != t[j].0@);
        } else {
            assert(t2[i] == t[i]);
        }
    }
    let m1 = table_model(t);
    let m2 = table_model(t2);
    let m3 = m1.insert(k@, v@);
    assert forall|q: Seq<u8>| #[trigger] m2.dom().contains(q) implies m3.dom().contains(q)
        && m2[q] == m3[q] by {
        if q == k@ {
            assert(t2[t.len() as int].0@ == q);
            lemma_choose_key(t2, t.len() as int);
        } else {
            let i = choose|i: int| 0 <= i < t2.len() && t2[i].0@ == q;
            assert(i < t.len());
            assert(t[i].0@ == q);
            lemma_choose_key(t2, i);
            lemma_choose_key(t, i);
        }
    }
    assert forall|q: Seq<u8>| #[trigger] m3.dom().contains(q) implies m2.dom().contains(q) by {
        if q == k@ {
            assert(t2[t.len() as int].0@ == q);
        } else {
            let i = choose|i: int| 0 <= i < t.len() && t[i].0@ == q;
            assert(t2[i].0@ == q);
        }
    }
    assert(m2 =~= m3);
}

/// Replacing the value of one row updates exactly that association.
proof fn lemma_model_update(t: Seq<(MarkovKey, MarkovValue)>, i: int, v: MarkovValue)
    requires
        unique_keys(t),
        0 <= i < t.len(),
    ensures
        unique_keys(t.update(i, (t[i].0, v))),
        table_model(t.update(i, (t[i].0, v))) == table_model(t).insert(t[i].0@, v@),
{
    let t2 = t.update(i, (t[i].0, v));
    assert forall|a: int, b: int| 0 <= a < b < t2.len() implies t2[a].0@ != t2[b].0@ by {
        assert(t2[a].0@ == t[a].0@ && t2[b].0@ == t[b].0@);
        assert(t[a].0@ != t[b].0@);
    }
    let m1 = table_model(t);
    let m2 = table_model(t2);
    let key = t[i].0@;
    let m3 = m1.insert(key, v@);
    assert(forall|j: int| 0 <= j < t.len() ==> (#[trigger] t2[j]).0@ == t[j].0@);
    assert forall|q: Seq<u8>| #[trigger] m2.dom().contains(q) implies m3.dom().contains(q)
        && m2[q] == m3[q] by {
        if q == key {
            assert(t2[i].0@ == q);
            lemma_choose_key(t2, i);
        } else {
            let j = choose|j: int| 0 <= j < t2.len() && t2[j].0@ == q;
            assert(t[j].0@ == q);
            lemma_choose_key(t2, j);
            lemma_choose_key(t, j);
        }
    }
    assert forall|q: Seq<u8>| #[trigger] m3.dom().contains(q) implies m2.dom().contains(q) by {
        if q == key {
            assert(t2[i].0@ == q);
        } else {
            let j = choose|j: int| 0 <= j < t.len() && t[j].0@ == q;
            assert(t2[j].0@ == q);
        }
    }
    assert(m2 =~= m3);
}

impl MarkovGenerator {
    /// How many training pairs the generator has absorbed so far.
    pub closed spec fn mass_spec(&self) -> nat {
        self.mass as nat
    }

    /// The generator's invariant: contexts unique, every distribution well
    /// formed and non-empty, and no distribution's total beyond the number of
    /// pairs absorbed so far.
    pub closed spec fn wf(&self) -> bool {
        &&& unique_keys(self.table@)
        &&& forall|i: int|
            0 <= i < self.table@.len() ==> (#[trigger] self.table@[i]).1.wf()
        &&& forall|i: int|
            0 <= i < self.table@.len() ==> (#[trigger] self.table@[i]).1@.len() >= 1
        &&& forall|i: int|
            0 <= i < self.table@.len() ==> (#[trigger] self.table@[i]).1.total_spec()
                <= self.mass_spec()
    }

    /// Whether an input of `len` symbols still fits under the capacity bound
    /// that keeps every occurrence count inside its machine word.
    pub open spec fn fits(&self, len: nat) -> bool {
        self.mass_spec() + len + 1 <= u32::MAX
    }

    /// A well-formed generator's model is well formed.
    pub proof fn lemma_model_wf(&self)
        requires
            self.wf(),
        ensures
            model_wf(self@),
    {
        assert forall|k: Seq<u8>| #[trigger] self@.contains_key(k) implies wf_entries(self@[k])
            && self@[k].len() >= 1 by {
            let i = choose|i: int| 0 <= i < self.table@.len() && self.table@[i].0@ == k;
            lemma_model_at(self.table@, i);
        }
    }

    /// A fresh generator: empty table, nothing learned.
    pub fn new() -> (r: MarkovGenerator)
        ensures
            r.wf(),
            r@ == Map::<Seq<u8>, Seq<(nat, u8)>>::empty(),
            r.mass_spec() == 0,
    {
        let r = MarkovGenerator { table: Vec::new(), mass: 0 };
        proof {
            assert(r@ =~= Map::<Seq<u8>, Seq<(nat, u8)>>::empty());
        }
        r
    }

    /// The position of a context in the table, if it was ever learned.
    #[verifier::loop_isolation(false)]
    fn find_index(&self, key: &MarkovKey) -> (r: Option<usize>)
        ensures
            match r {
                Some(i) => i < self.table@.len() && self.table@[i as int].0@ == key@,
                None => forall|i: int|
                    0 <= i < self.table@.len() ==> (#[trigger] self.table@[i]).0@ != key@,
            },
    {
        let mut idx: usize = 0;
        while idx < self.table.len()
            invariant
                0 <= idx <= self.table@.len(),
                forall|i: int| 0 <= i < idx ==> (#[trigger] self.table@[i]).0@ != key@,
            decreases self.table@.len() - idx,
        {
            if self.table[idx].0.key_equal(key) {
                return Some(idx);
            }
            idx += 1;
        }
        None
    }

    /// The frequency distribution learned for a context, if any.
    pub fn lookup(&self, key: &MarkovKey) -> (r: Option<&MarkovValue>)
        requires
            self.wf(),
        ensures
            match r {
                Some(v) => self@.contains_key(key@) && v@ == self@[key@] && v.wf() && v@.len()
                    >= 1,
                None => !self@.contains_key(key@),
            },
    {
        match self.find_index(key) {
            Some(i) => {
                proof {
                    lemma_model_at(self.table@, i as int);
                }
                Some(&self.table[i].1)
            },
            None => {
                proof {
                    if self@.contains_key(key@) {
                        let i = choose|i: int|
                            0 <= i < self.table@.len() && self.table@[i].0@ == key@;
                        assert(self.table@[i].0@ == key@);
                    }
                }
                None
            },
        }
    }

    /// Learn the transition statistics of `source`. Inputs shorter than
    /// [`MIN_LEARN_LEN`] symbols are rejected as noise, and inputs that would
    /// push an occurrence count past its machine word are rejected whole; in
    /// both cases the generator is left untouched. Otherwise every training
    /// pair of `source` is recorded, strictly additively.
    #[verifier::loop_isolation(false)]
    pub fn learn(&mut self, source: &str)
        requires
            old(self).wf(),
        ensures
            final(self).wf(),
            ({
                let bytes = encode_utf8(source@);
                &&& (bytes.len() < MIN_LEARN_LEN || !old(self).fits(bytes.len()))
                    ==> *final(self) == *old(self)
                &&& (bytes.len() >= MIN_LEARN_LEN && old(self).fits(bytes.len())) ==> {
                    &&& final(self)@ == spec_learn(old(self)@, bytes)
                    &&& final(self).mass_spec() == old(self).mass_spec() + bytes.len() + 1
                }
            }),
    {
        let bytes: &[u8] = source.as_bytes();
        if bytes.len() < MIN_LEARN_LEN {
            return;
        }
        if bytes.len() >= u32::MAX as usize {
            return;
        }
        if (self.mass as u64) + (bytes.len() as u64) + 1 > u32::MAX as u64 {
            return;
        }
        let ghost m0 = self@;
        let ghost old_mass = self.mass as nat;
        self.mass = self.mass + (bytes.len() as u32) + 1;
        let pairs = markov_pairs(bytes);
        let ghost ps = spec_pairs(bytes@);
        proof {
            lemma_pairs_count(all_sentinel(), bytes@);
            assert(ps.take(0) =~= Seq::<(Seq<u8>, u8)>::empty());
        }
        let mut idx: usize = 0;
        while idx < pairs.len()
            invariant
                0 <= idx <= ps.len(),
                self.mass == old(self).mass + bytes@.len() + 1,
                unique_keys(self.table@),
                forall|i: int| 0 <= i < self.table@.len() ==> (#[trigger] self.table@[i]).1.wf(),
                forall|i: int|
                    0 <= i < self.table@.len() ==> (#[trigger] self.table@[i]).1@.len() >= 1,
                forall|i: int|
                    0 <= i < self.table@.len() ==> (#[trigger] self.table@[i]).1.total_spec()
                        <= old_mass + idx,
                self@ == spec_train_all(m0, ps.take(idx as int)),
            decreases ps.len() - idx,
        {
            let key = pairs[idx].0;
            let sym = pairs[idx].1;
            let ghost m_prev = self@;
            proof {
                assert(ps.take(idx + 1) =~= ps.take(idx as int).push(ps[idx as int]));
                lemma_train_all_snoc(m0, ps.take(idx as int), ps[idx as int]);
            }
            match self.find_index(&key) {
                Some(i) => {
                    proof {
                        lemma_model_at(self.table@, i as int);
                        assert(self.table@[i as int].1.total_spec() <= old_mass + idx);
                    }
                    let ghost t_before = self.table@;
                    let row = &mut self.table[i];
                    row.1.add(sym);
                    proof {
                        assert(self.table@ == t_before.update(
                            i as int,
                            (t_before[i as int].0, self.table@[i as int].1),
                        ));
                        lemma_model_update(t_before, i as int, self.table@[i as int].1);
                        assert(self@ == spec_train(m_prev, key@, sym));
                    }
                },
                None => {
                    let fresh = MarkovValue::from_char(sym);
                    proof {
                        if m_prev.contains_key(key@) {
                            let j = choose|j: int|
                                0 <= j < self.table@.len() && self.table@[j].0@ == key@;
                            assert(self.table@[j].0@ == key@);
                        }
                        lemma_model_push(self.table@, key, fresh);
                    }
                    self.table.push((key, fresh));
                    proof {
                        assert(self@ == spec_train(m_prev, key@, sym));
                    }
                },
            }
            idx += 1;
        }
        proof {
            assert(ps.take(idx as int) =~= ps);
        }
    }

    /// Generate raw symbols from a seed context: the seed's visible symbols
    /// first, then successors sampled from the distribution of the current
    /// context, which advances with every emitted symbol, until a dead end,
    /// a sampled sentinel, or the output cap ends the attempt.
    #[verifier::loop_isolation(false)]
    pub fn generate_bytes(&self, key: MarkovKey, rng: &mut Rand) -> (out: Vec<u8>)
        requires
            self.wf(),
        ensures
            generated_bytes_from(self@, key@, out@),
    {
        let ghost seed = seed_symbols(key@);
        proof {
            lemma_seed_symbols_props(key@);
        }
        let mut out = key.seed_bytes();
        let mut cur = key;
        proof {
            assert(out@.take(seed.len() as int) =~= seed);
            assert(out@.skip(seed.len() as int) =~= Seq::<u8>::empty());
            assert(ctx_after(key@, Seq::<u8>::empty()) == key@);
        }
        while out.len() < MAX_GENERATED
            invariant
                out@.len() >= seed.len(),
                out@.take(seed.len() as int) == seed,
                forall|i: int| 0 <= i < out@.len() ==> out@[i] != SENTINEL,
                cur@ == ctx_after(key@, out@.skip(seed.len() as int)),
                forall|i: int|
                    seed.len() <= i < out@.len() ==> tcount(
                        self@,
                        ctx_after(key@, out@.subrange(seed.len() as int, i)),
                        #[trigger] out@[i],
                    ) > 0,
            decreases MAX_GENERATED - out@.len(),
        {
            match self.lookup(&cur) {
                None => {
                    proof {
                        if !self@.contains_key(key@) {
                            lemma_untrained_output_is_seed(self@, key@, out@);
                        }
                    }
                    return out;
                },
                Some(v) => {
                    let s = v.pick(rng);
                    if s == SENTINEL {
                        proof {
                            if !self@.contains_key(key@) {
                                lemma_untrained_output_is_seed(self@, key@, out@);
                            }
                            assert(tcount(self@, cur@, SENTINEL) > 0);
                        }
                        return out;
                    }
                    let ghost old_out = out@;
                    let ghost prev_cur = cur@;
                    proof {
                        assert(out@.push(s).take(seed.len() as int) =~= out@.take(
                            seed.len() as int,
                        ));
                        assert(out@.push(s).skip(seed.len() as int) =~= out@.skip(
                            seed.len() as int,
                        ).push(s));
                        lemma_ctx_after_snoc(key@, out@.skip(seed.len() as int), s);
                    }
                    out.push(s);
                    cur = cur.next(s);
                    proof {
                        assert forall|i: int| seed.len() <= i < out@.len() implies tcount(
                            self@,
                            ctx_after(key@, out@.subrange(seed.len() as int, i)),
                            #[trigger] out@[i],
                        ) > 0 by {
                            if i < old_out.len() {
                                assert(out@.subrange(seed.len() as int, i) =~= old_out.subrange(
                                    seed.len() as int,
                                    i,
                                ));
                                assert(out@[i] == old_out[i]);
                            } else {
                                assert(out@.subrange(seed.len() as int, i) =~= old_out.skip(
                                    seed.len() as int,
                                ));
                                assert(out@[i] == s);
                                assert(tcount(self@, prev_cur, s) > 0);
                            }
                        }
                    }
                },
            }
        }
        proof {
            if !self@.contains_key(key@) {
                lemma_untrained_output_is_seed(self@, key@, out@);
            }
        }
        out
    }

    /// One generation attempt from a seed context: the seed's visible symbols
    /// first, sampled successors after, and the accumulated output validated
    /// as text. An attempt that yields no symbols at all, or whose symbols do
    /// not decode, fails; a dead end does not.
    pub fn attempt_speak_from_key(&self, key: MarkovKey, rng: &mut Rand) -> (r: Result<
        String,
        (),
    >)
        requires
            self.wf(),
        ensures
            r matches Ok(s) ==> s@.len() > 0,
            r matches Ok(s) ==> generated_from(self@, key@, s@),
            !self@.contains_key(key@) && seed_symbols(key@).len() == 0 ==> r is Err,
            (!self@.contains_key(key@) && seed_symbols(key@).len() > 0 && valid_utf8(
                seed_symbols(key@),
            )) ==> (r matches Ok(s) && s@ == decode_utf8(seed_symbols(key@))),
    {
        let bytes = self.generate_bytes(key, rng);
        let ghost b = bytes@;
        if bytes.len() == 0 {
            return Err(());
        }
        match string_from_bytes(bytes) {
            Some(s) => {
                proof {
                    lemma_decode_nonempty(b);
                    assert(generated_bytes_from(self@, key@, b) && b.len() > 0 && valid_utf8(b)
                        && decode_utf8(b) == s@);
                    assert(generated_from(self@, key@, s@));
                }
                Ok(s)
            },
            None => Err(()),
        }
    }

    /// Generate from a seed context with bounded retry: up to
    /// [`RETRY_ATTEMPTS`] attempts, returning the first success, and failure
    /// only once every attempt has failed.
    #[verifier::loop_isolation(false)]
    pub fn speak_from_key(&self, key: MarkovKey, rng: &mut Rand) -> (r: Result<String, ()>)
        requires
            self.wf(),
        ensures
            r matches Ok(s) ==> s@.len() > 0,
            r matches Ok(s) ==> generated_from(self@, key@, s@),
            !self@.contains_key(key@) && seed_symbols(key@).len() == 0 ==> r is Err,
            (!self@.contains_key(key@) && seed_symbols(key@).len() > 0 && valid_utf8(
                seed_symbols(key@),
            )) ==> (r matches Ok(s) && s@ == decode_utf8(seed_symbols(key@))),
    {
        let mut attempt: usize = 0;
        while attempt < RETRY_ATTEMPTS
            invariant
                0 <= attempt <= RETRY_ATTEMPTS,
                attempt > 0 ==> !(!self@.contains_key(key@) && seed_symbols(key@).len() > 0
                    && valid_utf8(seed_symbols(key@))),
            decreases RETRY_ATTEMPTS - attempt,
        {
            match self.attempt_speak_from_key(key, rng) {
                Ok(res) => {
                    return Ok(res);
                },
                Err(_) => {},
            }
            attempt += 1;
        }
        Err(())
    }

    /// Unconditioned generation: generate from the all-sentinel starting
    /// context. On a generator whose table was never trained on that context
    /// — in particular on a freshly created one — this fails rather than
    /// returning empty or malformed output.
    pub fn speak(&self, rng: &mut Rand) -> (r: Result<String, ()>)
        requires
            self.wf(),
        ensures
            r matches Ok(s) ==> s@.len() > 0,
            r matches Ok(s) ==> generated_from(self@, all_sentinel(), s@),
            !self@.contains_key(all_sentinel()) ==> r is Err,
    {
        let key = MarkovKey::new();
        proof {
            lemma_sentinel_run_has_no_seed(all_sentinel());
        }
        self.speak_from_key(key, rng)
    }

    /// Seeded generation: walk the message's training contexts from the most
    /// recent (the longest, preferred) to the earliest and return the first
    /// context's successful generation; fail with no reply possible when none
    /// succeeds — in particular for an empty message on a generator never
    /// trained on the all-sentinel context. When the table was never trained
    /// on the most recent context and that context's visible seed is
    /// non-empty, valid text, success is owed: the reply is exactly that seed.
    #[verifier::loop_isolation(false)]
    pub fn reply(&self, message: &str, rng: &mut Rand) -> (r: Result<String, ()>)
        requires
            self.wf(),
        ensures
            r matches Ok(s) ==> s@.len() > 0,
            r matches Ok(s) ==> exists|j: int|
                #![trigger spec_pairs(encode_utf8(message@))[j]]
                {
                    &&& 0 <= j < spec_pairs(encode_utf8(message@)).len()
                    &&& generated_from(self@, spec_pairs(encode_utf8(message@))[j].0, s@)
                },
            message@.len() == 0 && !self@.contains_key(all_sentinel()) ==> r is Err,
            ({
                let tail = spec_pairs(encode_utf8(message@)).last().0;
                (!self@.contains_key(tail) && seed_symbols(tail).len() > 0 && valid_utf8(
                    seed_symbols(tail),
                )) ==> (r matches Ok(s) && s@ == decode_utf8(seed_symbols(tail)))
            }),
    {
        let bytes: &[u8] = message.as_bytes();
        let pairs = markov_pairs(bytes);
        let ghost ps = spec_pairs(bytes@);
        let ghost tail = ps.last().0;
        let ghost tail_owed = !self@.contains_key(tail) && seed_symbols(tail).len() > 0
            && valid_utf8(seed_symbols(tail));
        proof {
            lemma_pairs_count(all_sentinel(), bytes@);
            lemma_sentinel_run_has_no_seed(all_sentinel());
            if message@.len() == 0 {
                assert(encode_utf8(message@) =~= Seq::<u8>::empty());
                assert(bytes@.len() == 0);
                assert(pairs_from(all_sentinel(), bytes@) == seq![(all_sentinel(), SENTINEL)]);
            }
        }
        let mut idx: usize = pairs.len();
        while idx > 0
            invariant
                0 <= idx <= pairs@.len(),
                idx < pairs@.len() ==> !tail_owed,
            decreases idx,
        {
            idx -= 1;
            let key = pairs[idx].0;
            match self.speak_from_key(key, rng) {
                Ok(res) => {
                    proof {
                        assert(key@ == ps[idx as int].0);
                        if message@.len() == 0 && !self@.contains_key(all_sentinel()) {
                            assert(key@ == all_sentinel());
                            assert(false);
                        }
                        if tail_owed {
                            assert(idx as int == ps.len() - 1);
                            assert(key@ == tail);
                        }
                        assert(ps == spec_pairs(encode_utf8(message@)));
                        assert(generated_from(self@, ps[idx as int].0, res@));
                    }
                    return Ok(res);
                },
                Err(_) => {
                    proof {
                        if idx as int == ps.len() - 1 && tail_owed {
                            assert(key@ == tail);
                            assert(false);
                        }
                    }
                },
            }
        }
        Err(())
    }
}

/// Decoding non-empty valid bytes yields at least one character.
proof fn lemma_decode_nonempty(b: Seq<u8>)
    requires
        valid_utf8(b),
        b.len() > 0,
    ensures
        decode_utf8(b).len() >= 1,
{
    assert(decode_utf8(b) == seq![
        vstd::utf8::decode_first_scalar(b) as char,
    ] + decode_utf8(vstd::utf8::pop_first_scalar(b)));
}

/// Relies on `String::from_utf8`: it returns the string holding the given
/// bytes exactly when they are valid UTF-8, and its error value otherwise.
#[verifier::external_body]
fn string_from_bytes(bytes: Vec<u8>) -> (r: Option<String>)
    ensures
        r matches Some(s) ==> valid_utf8(bytes@) && s@ == decode_utf8(bytes@),
        r is None ==> !valid_utf8(bytes@),
{
    match String::from_utf8(bytes) {
        Ok(s) => Some(s),
        Err(_) => None,
    }
}

/// How many times the training pair `(ctx, sym)` occurs in a pair sequence.
pub open spec fn pair_occurrences(ps: Seq<(Seq<u8>, u8)>, ctx: Seq<u8>, sym: u8) -> nat
    decreases ps.len(),
{
    if ps.len() == 0 {
        0
    } else {
        (if ps[0].0 == ctx && ps[0].1 == sym {
            1nat
        } else {
            0nat
        }) + pair_occurrences(ps.drop_first(), ctx, sym)
    }
}

proof fn lemma_train_wf(m: Model, ctx: Seq<u8>, sym: u8)
    requires
        model_wf(m),
    ensures
        model_wf(spec_train(m, ctx, sym)),
{
    if m.contains_key(ctx) {
        lemma_spec_add(m[ctx], sym);
    } else {
        assert(seq![(1nat, sym)][0].0 == 1);
    }
}

proof fn lemma_train_count(m: Model, ctx: Seq<u8>, sym: u8, c2: Seq<u8>, s2: u8)
    requires
        model_wf(m),
    ensures
        tcount(spec_train(m, ctx, sym), c2, s2) == tcount(m, c2, s2) + (if c2 == ctx && s2
            == sym {
            1nat
        } else {
            0nat
        }),
{
    if m.contains_key(ctx) {
        lemma_spec_add(m[ctx], sym);
    } else {
        if c2 == ctx {
            assert(seq![(1nat, sym)].drop_first() =~= Seq::<(nat, u8)>::empty());
            assert(count_of(Seq::<(nat, u8)>::empty(), s2) == 0);
        }
    }
}

proof fn lemma_train_all_count(m: Model, ps: Seq<(Seq<u8>, u8)>, ctx: Seq<u8>, s2: u8)
    requires
        model_wf(m),
    ensures
        model_wf(spec_train_all(m, ps)),
        tcount(spec_train_all(m, ps), ctx, s2) == tcount(m, ctx, s2) + pair_occurrences(
            ps,
            ctx,
            s2,
        ),
    decreases ps.len(),
{
    if ps.len() > 0 {
        lemma_train_wf(m, ps[0].0, ps[0].1);
        lemma_train_count(m, ps[0].0, ps[0].1, ctx, s2);
        lemma_train_all_count(spec_train(m, ps[0].0, ps[0].1), ps.drop_first(), ctx, s2);
    }
}

/// Learning is strictly additive and commutes over repeated calls: it adds
/// to each (context, symbol) count exactly the number of occurrences of that
/// training pair in the input, whatever the table already held, and an input
/// below the length threshold adds nothing.
pub proof fn lemma_learn_adds_occurrences(m: Model, text: Seq<u8>)
    requires
        model_wf(m),
    ensures
        model_wf(spec_learn(m, text)),
        forall|ctx: Seq<u8>, sym: u8|
            #[trigger] tcount(spec_learn(m, text), ctx, sym) == tcount(m, ctx, sym) + (
            if text.len() < MIN_LEARN_LEN {
                0nat
            } else {
                pair_occurrences(spec_pairs(text), ctx, sym)
            }),
{
    if text.len() >= MIN_LEARN_LEN {
        lemma_train_all_count(m, spec_pairs(text), Seq::empty(), 0);
        assert forall|ctx: Seq<u8>, sym: u8|
            #[trigger] tcount(spec_learn(m, text), ctx, sym) == tcount(m, ctx, sym)
                + pair_occurrences(spec_pairs(text), ctx, sym) by {
            lemma_train_all_count(m, spec_pairs(text), ctx, sym);
        }
    }
}

/// Learning the same text twice, starting from an empty table, leaves every
/// count at exactly double its value after one learning pass, so the
/// relative proportions among the successor symbols of each context are
/// preserved.
pub proof fn lemma_learn_twice_doubles(text: Seq<u8>)
    ensures
        forall|ctx: Seq<u8>, sym: u8|
            #[trigger] tcount(
                spec_learn(spec_learn(Map::<Seq<u8>, Seq<(nat, u8)>>::empty(), text), text),
                ctx,
                sym,
            ) == 2 * tcount(spec_learn(Map::<Seq<u8>, Seq<(nat, u8)>>::empty(), text), ctx, sym),
        forall|ctx: Seq<u8>, s1: u8, s2: u8|
            #![auto]
            tcount(
                spec_learn(spec_learn(Map::<Seq<u8>, Seq<(nat, u8)>>::empty(), text), text),
                ctx,
                s1,
            ) * tcount(spec_learn(Map::<Seq<u8>, Seq<(nat, u8)>>::empty(), text), ctx, s2)
                == tcount(spec_learn(Map::<Seq<u8>, Seq<(nat, u8)>>::empty(), text), ctx, s1)
                * tcount(
                spec_learn(spec_learn(Map::<Seq<u8>, Seq<(nat, u8)>>::empty(), text), text),
                ctx,
                s2,
            ),
{
    let m0 = Map::<Seq<u8>, Seq<(nat, u8)>>::empty();
    let m1 = spec_learn(m0, text);
    let m2 = spec_learn(m1, text);
    assert(model_wf(m0));
    lemma_learn_adds_occurrences(m0, text);
    lemma_learn_adds_occurrences(m1, text);
    assert forall|ctx: Seq<u8>, sym: u8| #[trigger] tcount(m2, ctx, sym) == 2 * tcount(
        m1,
        ctx,
        sym,
    ) by {
        assert(tcount(m0, ctx, sym) == 0);
        assert(tcount(m1, ctx, sym) == tcount(m0, ctx, sym) + (if text.len() < MIN_LEARN_LEN {
            0nat
        } else {
            pair_occurrences(spec_pairs(text), ctx, sym)
        }));
        assert(tcount(m2, ctx, sym) == tcount(m1, ctx, sym) + (if text.len() < MIN_LEARN_LEN {
            0nat
        } else {
            pair_occurrences(spec_pairs(text), ctx, sym)
        }));
    }
    assert forall|ctx: Seq<u8>, s1: u8, s2: u8|
        #![auto]
        tcount(m2, ctx, s1) * tcount(m1, ctx, s2) == tcount(m1, ctx, s1) * tcount(
        m2,
        ctx,
        s2,
    ) by {
        let a = tcount(m1, ctx, s1);
        let b = tcount(m1, ctx, s2);
        assert(tcount(m2, ctx, s1) == 2 * a);
        assert(tcount(m2, ctx, s2) == 2 * b);
        assert((2 * a) * b == a * (2 * b)) by (nonlinear_arith);
    }
}

/// Training on one more pair, after training on a prefix, is training on the
/// extended prefix.
proof fn lemma_train_all_snoc(m: Model, ps: Seq<(Seq<u8>, u8)>, p: (Seq<u8>, u8))
    ensures
        spec_train_all(m, ps.push(p)) == spec_train(spec_train_all(m, ps), p.0, p.1),
    decreases ps.len(),
{
    if ps.len() == 0 {
        assert(ps.push(p)[0] == p);
        assert(ps.push(p).drop_first() =~= Seq::<(Seq<u8>, u8)>::empty());
        assert(spec_train_all(spec_train(m, p.0, p.1), Seq::<(Seq<u8>, u8)>::empty())
            == spec_train(m, p.0, p.1));
    } else {
        assert(ps.push(p)[0] == ps[0]);
        assert(ps.push(p).drop_first() =~= ps.drop_first().push(p));
        lemma_train_all_snoc(spec_train(m, ps[0].0, ps[0].1), ps.drop_first(), p);
    }
}

} // verus!

