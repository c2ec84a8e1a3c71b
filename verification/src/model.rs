//! The mathematical model of the cipher engine.
//!
//! Every rotor the engine ever holds is a cyclic shift `i -> (start + i) % n`
//! over the index space `{0, .., n-1}`, so a whole machine state is captured
//! by the per-rotor shift amounts, the advance cursor, the alphabet `(base,
//! n)`, and the plugboard table. The executable engine's contracts all speak
//! in terms of this model.

use crate::arith::{
    lemma_mod_in_range, lemma_shift_then_unshift, lemma_unshift_then_shift,
};
use vstd::prelude::*;

verus! {

/// The abstract state of a cipher engine.
pub struct Model {
    /// Per-rotor shift amounts, in application order; rotor `k` maps index
    /// `i` to `(starts[k] + i) % n`.
    pub starts: Seq<usize>,
    /// Which rotor advances on the next processed symbol.
    pub cursor: usize,
    /// Code of the first in-alphabet symbol.
    pub base: u8,
    /// Alphabet size.
    pub n: usize,
    /// Plugboard table over symbols: the symbol with code `base + i` is
    /// substituted by `plug[i]`. Well-formed tables are involutions.
    pub plug: Seq<u8>,
}

/// Every shift amount lies inside the index space.
pub open spec fn starts_ok(starts: Seq<usize>, n: int) -> bool {
    forall|k: int| 0 <= k < starts.len() ==> starts[k] < n
}

/// Run an index forward through the rotor chain, first rotor first.
pub open spec fn chain_fwd(starts: Seq<usize>, n: int, x: int) -> int
    decreases starts.len(),
{
    if starts.len() == 0 {
        x
    } else {
        chain_fwd(starts.drop_first(), n, (starts.first() + x) % n)
    }
}

/// Invert a single cyclic shift by `s`.
pub open spec fn rotor_bwd(s: int, n: int, y: int) -> int {
    (y + n - s) % n
}

/// Run an index backward through the rotor chain, last rotor first.
pub open spec fn chain_bwd(starts: Seq<usize>, n: int, y: int) -> int
    decreases starts.len(),
{
    if starts.len() == 0 {
        y
    } else {
        rotor_bwd(starts.first() as int, n, chain_bwd(starts.drop_first(), n, y))
    }
}

impl Model {
    /// The machine invariant: a nonempty alphabet whose codes fit in a byte,
    /// at least one rotor, every shift amount and the cursor in range, and an
    /// involutive plugboard over the alphabet.
    pub open spec fn wf(self) -> bool {
        &&& 1 <= self.n
        &&& self.base + self.n <= 256
        &&& self.starts.len() >= 1
        &&& self.cursor < self.starts.len()
        &&& starts_ok(self.starts, self.n as int)
        &&& self.plug.len() == self.n
        &&& forall|i: int|
            0 <= i < self.n ==> self.in_range(#[trigger] self.plug[i] as int)
                && self.plug[self.plug[i] - self.base] == self.base + i
    }

    /// A symbol is in the alphabet iff its code lies in `[base, base + n)`.
    pub open spec fn in_range(self, ch: int) -> bool {
        self.base <= ch < self.base + self.n
    }

    /// What one in-alphabet symbol encodes to: plugboard, then the forward
    /// rotor chain. Out-of-alphabet symbols pass through unchanged.
    pub open spec fn enc_sym(self, ch: u8) -> u8 {
        if self.in_range(ch as int) {
            (self.base + chain_fwd(
                self.starts,
                self.n as int,
                self.plug[ch - self.base] - self.base,
            )) as u8
        } else {
            ch
        }
    }

    /// What one in-alphabet symbol decodes to: the backward rotor chain, then
    /// the plugboard. Out-of-alphabet symbols pass through unchanged.
    pub open spec fn dec_sym(self, ch: u8) -> u8 {
        if self.in_range(ch as int) {
            self.plug[chain_bwd(self.starts, self.n as int, ch - self.base)]
        } else {
            ch
        }
    }

    /// The state after one rotor advance: the rotor under the cursor shifts
    /// by one more position and the cursor moves round-robin.
    pub open spec fn stepped(self) -> Model {
        Model {
            starts: self.starts.update(
                self.cursor as int,
                ((self.starts[self.cursor as int] + 1) % (self.n as int)) as usize,
            ),
            cursor: ((self.cursor + 1) % (self.starts.len() as int)) as usize,
            base: self.base,
            n: self.n,
            plug: self.plug,
        }
    }

    /// The state after processing one symbol: in-alphabet symbols advance the
    /// machine, all others leave it untouched.
    pub open spec fn step_on(self, ch: u8) -> Model {
        if self.in_range(ch as int) {
            self.stepped()
        } else {
            self
        }
    }

    /// Streaming encode of a whole message, one symbol at a time.
    pub open spec fn enc_msg(self, s: Seq<u8>) -> Seq<u8>
        decreases s.len(),
    {
        if s.len() == 0 {
            Seq::empty()
        } else {
            seq![self.enc_sym(s.first())] + self.step_on(s.first()).enc_msg(s.drop_first())
        }
    }

    /// Streaming decode of a whole message, one symbol at a time.
    pub open spec fn dec_msg(self, s: Seq<u8>) -> Seq<u8>
        decreases s.len(),
    {
        if s.len() == 0 {
            Seq::empty()
        } else {
            seq![self.dec_sym(s.first())] + self.step_on(s.first()).dec_msg(s.drop_first())
        }
    }

    /// The state left behind after a whole message has been processed.
    pub open spec fn run(self, s: Seq<u8>) -> Model
        decreases s.len(),
    {
        if s.len() == 0 {
            self
        } else {
            self.step_on(s.first()).run(s.drop_first())
        }
    }

    /// The state after exactly `k` rotor advances.
    pub open spec fn stepped_times(self, k: nat) -> Model
        decreases k,
    {
        if k == 0 {
            self
        } else {
            self.stepped().stepped_times((k - 1) as nat)
        }
    }
}

/// How many symbols of `s` lie inside `m`'s alphabet.
pub open spec fn in_range_count(m: Model, s: Seq<u8>) -> nat
    decreases s.len(),
{
    if s.len() == 0 {
        0
    } else {
        (if m.in_range(s.first() as int) {
            1nat
        } else {
            0nat
        }) + in_range_count(m, s.drop_first())
    }
}

proof fn lemma_starts_ok_drop(starts: Seq<usize>, n: int)
    requires
        starts.len() > 0,
        starts_ok(starts, n),
    ensures
        starts_ok(starts.drop_first(), n),
{
    assert forall|k: int| 0 <= k < starts.drop_first().len() implies starts.drop_first()[k]
        < n by {
        assert(starts.drop_first()[k] == starts[k + 1]);
    }
}

/// The forward chain never leaves the index space.
pub proof fn lemma_chain_fwd_in_range(starts: Seq<usize>, n: int, x: int)
    requires
        n > 0,
        starts_ok(starts, n),
        0 <= x < n,
    ensures
        0 <= chain_fwd(starts, n, x) < n,
    decreases starts.len(),
{
    if starts.len() > 0 {
        lemma_mod_in_range(starts.first() + x, n);
        lemma_starts_ok_drop(starts, n);
        lemma_chain_fwd_in_range(starts.drop_first(), n, (starts.first() + x) % n);
    }
}

/// The backward chain never leaves the index space.
pub proof fn lemma_chain_bwd_in_range(starts: Seq<usize>, n: int, y: int)
    requires
        n > 0,
        starts_ok(starts, n),
        0 <= y < n,
    ensures
        0 <= chain_bwd(starts, n, y) < n,
    decreases starts.len(),
{
    if starts.len() > 0 {
        lemma_starts_ok_drop(starts, n);
        lemma_chain_bwd_in_range(starts.drop_first(), n, y);
        lemma_mod_in_range(chain_bwd(starts.drop_first(), n, y) + n - starts.first(), n);
    }
}

/// Running an index forward and then backward through the same chain
/// returns the original index.
pub proof fn lemma_chain_round_trip(starts: Seq<usize>, n: int, x: int)
    requires
        n > 0,
        starts_ok(starts, n),
        0 <= x < n,
    ensures
        chain_bwd(starts, n, chain_fwd(starts, n, x)) == x,
    decreases starts.len(),
{
    if starts.len() > 0 {
        let y = (starts.first() + x) % n;
        lemma_mod_in_range(starts.first() + x, n);
        lemma_starts_ok_drop(starts, n);
        lemma_chain_round_trip(starts.drop_first(), n, y);
        lemma_shift_then_unshift(starts.first() as int, x, n);
    }
}

/// Running an index backward and then forward through the same chain
/// returns the original index.
pub proof fn lemma_chain_trip_round(starts: Seq<usize>, n: int, y: int)
    requires
        n > 0,
        starts_ok(starts, n),
        0 <= y < n,
    ensures
        chain_fwd(starts, n, chain_bwd(starts, n, y)) == y,
    decreases starts.len(),
{
    if starts.len() > 0 {
        lemma_starts_ok_drop(starts, n);
        let z = chain_bwd(starts.drop_first(), n, y);
        lemma_chain_bwd_in_range(starts.drop_first(), n, y);
        lemma_unshift_then_shift(starts.first() as int, z, n);
        lemma_chain_trip_round(starts.drop_first(), n, y);
    }
}

/// Appending one more rotor to a chain applies its shift last.
pub proof fn lemma_chain_fwd_snoc(starts: Seq<usize>, s: usize, n: int, x: int)
    ensures
        chain_fwd(starts.push(s), n, x) == (s + chain_fwd(starts, n, x)) % n,
    decreases starts.len(),
{
    reveal_with_fuel(chain_fwd, 3);
    if starts.len() == 0 {
        assert(starts.push(s).first() == s);
        assert(starts.push(s).drop_first() =~= starts);
    } else {
        assert(starts.push(s).first() == starts.first());
        assert(starts.push(s).drop_first() =~= starts.drop_first().push(s));
        lemma_chain_fwd_snoc(starts.drop_first(), s, n, (starts.first() + x) % n);
    }
}

/// Encoding keeps in-alphabet symbols in the alphabet and out-of-alphabet
/// symbols out of it.
pub proof fn lemma_enc_sym_in_range(m: Model, ch: u8)
    requires
        m.wf(),
    ensures
        m.in_range(m.enc_sym(ch) as int) == m.in_range(ch as int),
{
    if m.in_range(ch as int) {
        lemma_chain_fwd_in_range(m.starts, m.n as int, m.plug[ch - m.base] - m.base);
    }
}

/// Decoding keeps in-alphabet symbols in the alphabet and out-of-alphabet
/// symbols out of it.
pub proof fn lemma_dec_sym_in_range(m: Model, ch: u8)
    requires
        m.wf(),
    ensures
        m.in_range(m.dec_sym(ch) as int) == m.in_range(ch as int),
{
    if m.in_range(ch as int) {
        lemma_chain_bwd_in_range(m.starts, m.n as int, ch - m.base);
    }
}

/// Decoding one symbol with the same machine state undoes encoding it.
pub proof fn lemma_sym_round_trip(m: Model, ch: u8)
    requires
        m.wf(),
    ensures
        m.dec_sym(m.enc_sym(ch)) == ch,
{
    if m.in_range(ch as int) {
        let i = ch - m.base;
        let p = m.plug[i] - m.base;
        lemma_chain_fwd_in_range(m.starts, m.n as int, p);
        lemma_chain_round_trip(m.starts, m.n as int, p);
    }
}

/// Encoding one symbol with the same machine state undoes decoding it.
pub proof fn lemma_sym_trip_round(m: Model, ch: u8)
    requires
        m.wf(),
    ensures
        m.enc_sym(m.dec_sym(ch)) == ch,
{
    if m.in_range(ch as int) {
        let z = chain_bwd(m.starts, m.n as int, ch - m.base);
        lemma_chain_bwd_in_range(m.starts, m.n as int, ch - m.base);
        lemma_chain_trip_round(m.starts, m.n as int, ch - m.base);
        assert(m.plug[m.plug[z] - m.base] == m.base + z);
    }
}

/// With a fixed machine state, single-symbol encoding is injective over the
/// alphabet.
pub proof fn lemma_enc_sym_injective(m: Model, a: u8, b: u8)
    requires
        m.wf(),
        m.in_range(a as int),
        m.in_range(b as int),
        m.enc_sym(a) == m.enc_sym(b),
    ensures
        a == b,
{
    lemma_sym_round_trip(m, a);
    lemma_sym_round_trip(m, b);
}

/// One rotor advance preserves the machine invariant and changes nothing but
/// the rotor shifts and the cursor.
pub proof fn lemma_stepped_wf(m: Model)
    requires
        m.wf(),
    ensures
        m.stepped().wf(),
        m.stepped().base == m.base,
        m.stepped().n == m.n,
        m.stepped().plug == m.plug,
        m.stepped().starts.len() == m.starts.len(),
{
    lemma_mod_in_range(m.starts[m.cursor as int] + 1, m.n as int);
    lemma_mod_in_range(m.cursor + 1, m.starts.len() as int);
}

/// Processing one symbol preserves the machine invariant and the key
/// material.
pub proof fn lemma_step_on_wf(m: Model, ch: u8)
    requires
        m.wf(),
    ensures
        m.step_on(ch).wf(),
        m.step_on(ch).base == m.base,
        m.step_on(ch).n == m.n,
        m.step_on(ch).plug == m.plug,
        m.step_on(ch).starts.len() == m.starts.len(),
{
    if m.in_range(ch as int) {
        lemma_stepped_wf(m);
    }
}

/// Processing a whole message preserves the machine invariant and the key
/// material.
pub proof fn lemma_run_wf(m: Model, s: Seq<u8>)
    requires
        m.wf(),
    ensures
        m.run(s).wf(),
        m.run(s).base == m.base,
        m.run(s).n == m.n,
        m.run(s).plug == m.plug,
        m.run(s).starts.len() == m.starts.len(),
    decreases s.len(),
{
    if s.len() > 0 {
        lemma_step_on_wf(m, s.first());
        lemma_run_wf(m.step_on(s.first()), s.drop_first());
    }
}

/// An encoded message has exactly one output symbol per input symbol.
pub proof fn lemma_enc_msg_len(m: Model, s: Seq<u8>)
    ensures
        m.enc_msg(s).len() == s.len(),
    decreases s.len(),
{
    if s.len() > 0 {
        lemma_enc_msg_len(m.step_on(s.first()), s.drop_first());
    }
}

/// A decoded message has exactly one output symbol per input symbol.
pub proof fn lemma_dec_msg_len(m: Model, s: Seq<u8>)
    ensures
        m.dec_msg(s).len() == s.len(),
    decreases s.len(),
{
    if s.len() > 0 {
        lemma_dec_msg_len(m.step_on(s.first()), s.drop_first());
    }
}

/// Processing one more symbol at the end of a message encodes it with the
/// state the message leaves behind.
pub proof fn lemma_enc_msg_snoc(m: Model, s: Seq<u8>, c: u8)
    requires
        m.wf(),
    ensures
        m.enc_msg(s.push(c)) == m.enc_msg(s).push(m.run(s).enc_sym(c)),
        m.run(s.push(c)) == m.run(s).step_on(c),
    decreases s.len(),
{
    reveal_with_fuel(Model::enc_msg, 3);
    reveal_with_fuel(Model::run, 3);
    if s.len() == 0 {
        assert(s.push(c).first() == c);
        assert(s.push(c).drop_first() =~= Seq::<u8>::empty());
        assert(m.enc_msg(s.push(c)) =~= m.enc_msg(s).push(m.run(s).enc_sym(c)));
    } else {
        assert(s.push(c).first() == s.first());
        assert(s.push(c).drop_first() =~= s.drop_first().push(c));
        lemma_step_on_wf(m, s.first());
        lemma_enc_msg_snoc(m.step_on(s.first()), s.drop_first(), c);
        assert(m.enc_msg(s.push(c)) =~= m.enc_msg(s).push(m.run(s).enc_sym(c)));
    }
}

/// Processing one more symbol at the end of a message decodes it with the
/// state the message leaves behind.
pub proof fn lemma_dec_msg_snoc(m: Model, s: Seq<u8>, c: u8)
    requires
        m.wf(),
    ensures
        m.dec_msg(s.push(c)) == m.dec_msg(s).push(m.run(s).dec_sym(c)),
        m.run(s.push(c)) == m.run(s).step_on(c),
    decreases s.len(),
{
    reveal_with_fuel(Model::dec_msg, 3);
    reveal_with_fuel(Model::run, 3);
    if s.len() == 0 {
        assert(s.push(c).first() == c);
        assert(s.push(c).drop_first() =~= Seq::<u8>::empty());
        assert(m.dec_msg(s.push(c)) =~= m.dec_msg(s).push(m.run(s).dec_sym(c)));
    } else {
        assert(s.push(c).first() == s.first());
        assert(s.push(c).drop_first() =~= s.drop_first().push(c));
        lemma_step_on_wf(m, s.first());
        lemma_dec_msg_snoc(m.step_on(s.first()), s.drop_first(), c);
        assert(m.dec_msg(s.push(c)) =~= m.dec_msg(s).push(m.run(s).dec_sym(c)));
    }
}

/// Round trip: decoding an encoded message with an identically-seeded
/// machine in lock-step recovers the message, whatever mixture of
/// in-alphabet and pass-through symbols it holds.
pub proof fn lemma_msg_round_trip(m: Model, s: Seq<u8>)
    requires
        m.wf(),
    ensures
        m.dec_msg(m.enc_msg(s)) == s,
    decreases s.len(),
{
    if s.len() == 0 {
        assert(m.dec_msg(m.enc_msg(s)) =~= s);
    } else {
        let c = s.first();
        let e = m.enc_sym(c);
        let rest = m.step_on(c).enc_msg(s.drop_first());
        assert((seq![e] + rest).first() == e);
        assert((seq![e] + rest).drop_first() =~= rest);
        lemma_sym_round_trip(m, c);
        lemma_enc_sym_in_range(m, c);
        lemma_step_on_wf(m, c);
        lemma_msg_round_trip(m.step_on(c), s.drop_first());
        assert(m.dec_msg(m.enc_msg(s)) =~= s);
    }
}

/// The mirror round trip: encoding a decoded message with an
/// identically-seeded machine in lock-step reproduces it, so decoding loses
/// no information either.
pub proof fn lemma_msg_trip_round(m: Model, s: Seq<u8>)
    requires
        m.wf(),
    ensures
        m.enc_msg(m.dec_msg(s)) == s,
    decreases s.len(),
{
    if s.len() == 0 {
        assert(m.enc_msg(m.dec_msg(s)) =~= s);
    } else {
        let c = s.first();
        let d = m.dec_sym(c);
        let rest = m.step_on(c).dec_msg(s.drop_first());
        assert((seq![d] + rest).first() == d);
        assert((seq![d] + rest).drop_first() =~= rest);
        lemma_sym_trip_round(m, c);
        lemma_dec_sym_in_range(m, c);
        lemma_step_on_wf(m, c);
        lemma_msg_trip_round(m.step_on(c), s.drop_first());
        assert(m.enc_msg(m.dec_msg(s)) =~= s);
    }
}

/// Encoding distributes over concatenation: the second part is encoded from
/// the state the first part leaves behind.
pub proof fn lemma_enc_msg_append(m: Model, s1: Seq<u8>, s2: Seq<u8>)
    requires
        m.wf(),
    ensures
        m.enc_msg(s1 + s2) == m.enc_msg(s1) + m.run(s1).enc_msg(s2),
    decreases s1.len(),
{
    if s1.len() == 0 {
        assert(s1 + s2 =~= s2);
        assert(m.enc_msg(s1) + m.run(s1).enc_msg(s2) =~= m.enc_msg(s2));
    } else {
        let c = s1.first();
        assert((s1 + s2).first() == c);
        assert((s1 + s2).drop_first() =~= s1.drop_first() + s2);
        lemma_step_on_wf(m, c);
        lemma_enc_msg_append(m.step_on(c), s1.drop_first(), s2);
        assert(m.enc_msg(s1 + s2) =~= m.enc_msg(s1) + m.run(s1).enc_msg(s2));
    }
}

/// Stepping determinism: what the machine emits for the first `k` symbols
/// depends only on those symbols, never on the rest of the message.
pub proof fn lemma_prefix_determinism(m: Model, s1: Seq<u8>, s2: Seq<u8>, k: int)
    requires
        m.wf(),
        0 <= k <= s1.len(),
        k <= s2.len(),
        s1.take(k) == s2.take(k),
    ensures
        m.enc_msg(s1).take(k) == m.enc_msg(s2).take(k),
{
    assert(s1 =~= s1.take(k) + s1.skip(k));
    assert(s2 =~= s2.take(k) + s2.skip(k));
    lemma_enc_msg_append(m, s1.take(k), s1.skip(k));
    lemma_enc_msg_append(m, s2.take(k), s2.skip(k));
    lemma_enc_msg_len(m, s1.take(k));
    lemma_enc_msg_len(m, s2.take(k));
    assert((m.enc_msg(s1.take(k)) + m.run(s1.take(k)).enc_msg(s1.skip(k))).take(k) =~= m.enc_msg(
        s1.take(k),
    ));
    assert((m.enc_msg(s2.take(k)) + m.run(s2.take(k)).enc_msg(s2.skip(k))).take(k) =~= m.enc_msg(
        s2.take(k),
    ));
}

proof fn lemma_in_range_count_same(m1: Model, m2: Model, s: Seq<u8>)
    requires
        m1.base == m2.base,
        m1.n == m2.n,
    ensures
        in_range_count(m1, s) == in_range_count(m2, s),
    decreases s.len(),
{
    if s.len() > 0 {
        lemma_in_range_count_same(m1, m2, s.drop_first());
    }
}

/// Pass-through invariance: after any message, the rotor state reflects
/// exactly the number of in-alphabet symbols processed; out-of-alphabet
/// symbols leave no trace.
pub proof fn lemma_run_counts_in_range(m: Model, s: Seq<u8>)
    requires
        m.wf(),
    ensures
        m.run(s) == m.stepped_times(in_range_count(m, s)),
    decreases s.len(),
{
    if s.len() > 0 {
        let c = s.first();
        lemma_step_on_wf(m, c);
        lemma_run_counts_in_range(m.step_on(c), s.drop_first());
        lemma_in_range_count_same(m, m.step_on(c), s.drop_first());
        if m.in_range(c as int) {
            assert(m.stepped_times(1 + in_range_count(m, s.drop_first())) == m.stepped()
                .stepped_times(in_range_count(m, s.drop_first())));
        }
    }
}

} // verus!
