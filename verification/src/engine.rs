//! The cipher engine: a rotor chain, an advance cursor, and a plugboard.
//!
//! An engine is built once from a key and then streams one message, one
//! symbol at a time; each in-alphabet symbol advances exactly one rotor, so
//! a second message (or the decoding of the first) needs a freshly built
//! engine seeded with the same key.

use crate::arith::{lemma_mod_add_left, lemma_mod_in_range, lemma_shift_then_unshift,
    lemma_unshift_then_shift};
use crate::errors::KeyError;
use crate::model::{chain_bwd, chain_fwd, lemma_chain_fwd_snoc, lemma_dec_msg_snoc,
    lemma_enc_msg_snoc, lemma_stepped_wf, rotor_bwd, Model};
use crate::plugboard::{pairs_ok, plug_build_err, plug_table, Plugboard};
use vstd::arithmetic::div_mod::{lemma_mod_self_0, lemma_small_mod};
use vstd::prelude::*;

verus! {

/// A materialized rotor is the cyclic shift by its own first entry.
pub open spec fn rotor_table_wf(rot: Seq<usize>, n: int) -> bool {
    rot.len() == n && forall|i: int| 0 <= i < n ==> #[trigger] rot[i] == (rot[0] + i) % n
}

/// The alphabet has at least one symbol and its codes fit in a byte.
pub open spec fn alphabet_ok(n: int, base: int) -> bool {
    1 <= n && base + n <= 256
}

/// At least one rotor, every initial offset inside `[0, n)`.
pub open spec fn offsets_ok(offsets: Seq<usize>, n: int) -> bool {
    offsets.len() >= 1 && forall|k: int| 0 <= k < offsets.len() ==> offsets[k] < n
}

/// A key is valid iff the alphabet, the offsets and the plugboard pairs all
/// are.
pub open spec fn key_ok(offsets: Seq<usize>, n: int, base: int, pairs: Seq<(u8, u8)>) -> bool {
    alphabet_ok(n, base) && offsets_ok(offsets, n) && pairs_ok(pairs, base, n)
}

/// The machine state a valid key constructs: one rotor per offset, shifted
/// by exactly that offset, the cursor on the first rotor, and the plugboard
/// table built from the pairs.
pub open spec fn init_model(offsets: Seq<usize>, n: usize, base: u8, pairs: Seq<(u8, u8)>) -> Model {
    Model {
        starts: offsets,
        cursor: 0,
        base: base,
        n: n,
        plug: plug_table(pairs, base as int, n as int),
    }
}

/// The cipher engine.
pub struct Enigma {
    /// The rotor chain, in application order; each rotor is a materialized
    /// cyclic-shift permutation of `{0, .., n-1}`.
    pub rotors: Vec<Vec<usize>>,
    /// Which rotor advances on the next processed symbol.
    pub rot_base: usize,
    /// Code of the first in-alphabet symbol.
    pub base: u8,
    /// Alphabet size.
    pub n: usize,
    /// The plugboard substitution table.
    pub plug: Plugboard,
}

impl Enigma {
    /// The abstract machine state this engine realizes.
    pub open spec fn view(&self) -> Model {
        Model {
            starts: self.rotors@.map_values(|r: Vec<usize>| r@[0]),
            cursor: self.rot_base,
            base: self.base,
            n: self.n,
            plug: self.plug.table@,
        }
    }

    /// The engine invariant: the abstract state is well formed, every rotor
    /// table materializes its shift, and the plugboard belongs to the same
    /// alphabet.
    pub open spec fn wf(&self) -> bool {
        &&& self@.wf()
        &&& forall|k: int|
            0 <= k < self.rotors@.len() ==> rotor_table_wf(#[trigger] self.rotors@[k]@, self.n as int)
        &&& self.plug.wf()
        &&& self.plug.base == self.base
        &&& self.plug.table@.len() == self.n
    }

    /// Fill a rotor so that entry `i` holds `(count + i) % n`: the cyclic
    /// shift starting at `count`.
    pub fn set_rot(rot: &mut Vec<usize>, count: usize, n: usize)
        requires
            old(rot)@.len() == n,
            count < n,
        ensures
            final(rot)@.len() == n,
            forall|i: int| 0 <= i < n ==> final(rot)@[i] == (count + i) % (n as int),
    {
        proof {
            lemma_small_mod(count as nat, n as nat);
        }
        let mut cur = count;
        let mut index: usize = 0;
        while index < n
            invariant
                index <= n,
                rot@.len() == n,
                count < n,
                cur < n,
                cur == (count + index) % (n as int),
                forall|i: int| 0 <= i < index ==> rot@[i] == (count + i) % (n as int),
            decreases n - index,
        {
            rot[index] = cur;
            proof {
                lemma_mod_add_left(count + index, 1, n as int);
                if cur >= n - 1 {
                    lemma_mod_self_0(n as int);
                } else {
                    lemma_small_mod((cur + 1) as nat, n as nat);
                }
            }
            if cur >= n - 1 {
                cur = 0;
            } else {
                cur += 1;
            }
            index += 1;
        }
    }

    /// Advance a rotor one position: every entry moves up by one, wrapping
    /// at `n`. On a cyclic shift this increments the shift amount mod `n`.
    pub fn inc_rot(rot: &mut Vec<usize>, n: usize)
        requires
            1 <= n,
            old(rot)@.len() == n,
            forall|i: int| 0 <= i < n ==> old(rot)@[i] < n,
        ensures
            final(rot)@.len() == n,
            forall|i: int| 0 <= i < n ==> final(rot)@[i] == (old(rot)@[i] + 1) % (n as int),
    {
        let mut index: usize = 0;
        while index < n
            invariant
                index <= n,
                rot@.len() == n,
                forall|i: int| index <= i < n ==> rot@[i] == old(rot)@[i] && old(rot)@[i] < n,
                forall|i: int| 0 <= i < index ==> rot@[i] == (old(rot)@[i] + 1) % (n as int),
            decreases n - index,
        {
            proof {
                if rot@[index as int] + 1 == n {
                    lemma_mod_self_0(n as int);
                } else {
                    lemma_small_mod((rot@[index as int] + 1) as nat, n as nat);
                }
            }
            rot[index] = rot[index] + 1;
            if rot[index] == n {
                rot[index] = 0;
            }
            index += 1;
        }
    }

    /// Advance the rotor under the cursor and move the cursor round-robin:
    /// the odometer step taken after each processed symbol.
    pub fn spin_rot(&mut self)
        requires
            old(self).wf(),
        ensures
            final(self).wf(),
            final(self)@ == old(self)@.stepped(),
    {
        let idx = self.rot_base;
        let n = self.n;
        Enigma::inc_rot(&mut self.rotors[idx], n);
        if self.rot_base >= self.rotors.len() - 1 {
            self.rot_base = 0;
        } else {
            self.rot_base += 1;
        }
        proof {
            let m = old(self)@;
            let rold = old(self).rotors@[idx as int]@;
            let rnew = self.rotors@[idx as int]@;
            assert forall|i: int| 0 <= i < n implies #[trigger] rnew[i] == (rnew[0] + i) % (
            n as int) by {
                assert(rnew[i] == (rold[i] + 1) % (n as int));
                assert(rold[i] == (rold[0] + i) % (n as int));
                lemma_mod_add_left(rold[0] + i, 1, n as int);
                lemma_mod_add_left(rold[0] + 1, i, n as int);
            }
            if idx == self.rotors.len() - 1 {
                lemma_mod_self_0(self.rotors@.len() as int);
            } else {
                lemma_small_mod((idx + 1) as nat, self.rotors@.len() as nat);
            }
            assert(self@.starts =~= m.stepped().starts);
            assert(self@ == m.stepped());
            lemma_stepped_wf(m);
        }
    }

    /// Is this symbol inside the configured alphabet?
    pub fn in_alphabet(&self, ch: u8) -> (r: bool)
        requires
            self.wf(),
        ensures
            r == self@.in_range(ch as int),
    {
        ch >= self.base && (ch as usize) < self.base as usize + self.n
    }

    /// Find the input index a rotor maps to `v`: the unique inverse lookup
    /// on a materialized permutation, by linear scan.
    #[verifier::loop_isolation(false)]
    fn invert_rotor(rot: &Vec<usize>, v: usize, n: usize) -> (r: usize)
        requires
            1 <= n,
            rotor_table_wf(rot@, n as int),
            v < n,
        ensures
            r < n,
            rot@[r as int] == v,
            r == rotor_bwd(rot@[0] as int, n as int, v as int),
    {
        let ghost s = rot@[0] as int;
        proof {
            lemma_mod_in_range(s, n as int);
        }
        let mut j: usize = 0;
        while j < n
            invariant
                j <= n,
                forall|i: int| 0 <= i < j ==> rot@[i] != v,
            decreases n - j,
        {
            if rot[j] == v {
                proof {
                    lemma_shift_then_unshift(s, j as int, n as int);
                }
                return j;
            }
            j += 1;
        }
        proof {
            let w = rotor_bwd(s, n as int, v as int);
            lemma_mod_in_range(v + n - s, n as int);
            lemma_unshift_then_shift(s, v as int, n as int);
            assert(rot@[w] == v);
            assert(false);
        }
        0
    }

    /// Encode one symbol and advance the machine. An in-alphabet symbol is
    /// substituted through the plugboard, run forward through the rotor
    /// chain, and steps exactly one rotor; any other symbol is emitted
    /// unchanged and leaves the machine untouched.
    #[verifier::loop_isolation(false)]
    pub fn crypt_char(&mut self, ch: u8) -> (r: u8)
        requires
            old(self).wf(),
        ensures
            final(self).wf(),
            final(self)@ == old(self)@.step_on(ch),
            r == old(self)@.enc_sym(ch),
            !old(self)@.in_range(ch as int) ==> r == ch && final(self)@ == old(self)@,
    {
        if self.in_alphabet(ch) {
            let sub = self.plug.substitute(ch);
            let mut idx = (sub - self.base) as usize;
            let ghost x0 = idx as int;
            let ghost starts = self@.starts;
            let mut k: usize = 0;
            while k < self.rotors.len()
                invariant
                    k <= self.rotors@.len(),
                    idx < self.n,
                    idx == chain_fwd(starts.take(k as int), self.n as int, x0),
                decreases self.rotors@.len() - k,
            {
                let t = self.rotors[k][idx];
                proof {
                    assert(starts.take(k + 1) =~= starts.take(k as int).push(starts[k as int]));
                    lemma_chain_fwd_snoc(starts.take(k as int), starts[k as int], self.n as int, x0);
                    assert(t == (starts[k as int] + idx) % (self.n as int));
                    lemma_mod_in_range(starts[k as int] + idx, self.n as int);
                }
                idx = t;
                k += 1;
            }
            proof {
                assert(starts.take(self.rotors@.len() as int) =~= starts);
            }
            let r = self.base + idx as u8;
            self.spin_rot();
            r
        } else {
            ch
        }
    }

    /// Decode one symbol and advance the machine exactly as encoding does.
    /// An in-alphabet symbol is run backward through the rotor chain (last
    /// rotor first), substituted through the plugboard, and steps exactly
    /// one rotor; any other symbol is emitted unchanged and leaves the
    /// machine untouched.
    #[verifier::loop_isolation(false)]
    pub fn decipher_char(&mut self, ch: u8) -> (r: u8)
        requires
            old(self).wf(),
        ensures
            final(self).wf(),
            final(self)@ == old(self)@.step_on(ch),
            r == old(self)@.dec_sym(ch),
            !old(self)@.in_range(ch as int) ==> r == ch && final(self)@ == old(self)@,
    {
        if self.in_alphabet(ch) {
            let mut idx = (ch - self.base) as usize;
            let ghost y0 = idx as int;
            let ghost starts = self@.starts;
            let mut k: usize = self.rotors.len();
            while k > 0
                invariant
                    k <= self.rotors@.len(),
                    idx < self.n,
                    idx == chain_bwd(starts.skip(k as int), self.n as int, y0),
                decreases k,
            {
                k -= 1;
                let pos = Enigma::invert_rotor(&self.rotors[k], idx, self.n);
                proof {
                    assert(starts.skip(k as int).first() == starts[k as int]);
                    assert(starts.skip(k as int).drop_first() =~= starts.skip(k + 1));
                    assert(self.rotors@[k as int]@[0] == starts[k as int]);
                }
                idx = pos;
            }
            proof {
                assert(starts.skip(0) =~= starts);
            }
            let sym = self.base + idx as u8;
            let r = self.plug.substitute(sym);
            self.spin_rot();
            r
        } else {
            ch
        }
    }

    /// Build an engine from a key: per-rotor initial offsets, the alphabet
    /// `(base, n)`, and the plugboard pairs. A valid key yields exactly the
    /// machine `init_model` describes; an invalid key yields the error for
    /// the first fault found, and no engine.
    #[verifier::loop_isolation(false)]
    pub fn new(offsets: &Vec<usize>, n: usize, base: u8, pairs: &Vec<(u8, u8)>) -> (r: Result<
        Enigma,
        KeyError,
    >)
        ensures
            (r is Ok) <==> key_ok(offsets@, n as int, base as int, pairs@),
            r matches Ok(e) ==> e.wf() && e@ == init_model(offsets@, n, base, pairs@),
            (r == Err::<Enigma, KeyError>(KeyError::InvalidAlphabet)) <==> !alphabet_ok(
                n as int,
                base as int,
            ),
            (r == Err::<Enigma, KeyError>(KeyError::NoRotors)) <==> alphabet_ok(n as int, base as int)
                && offsets@.len() == 0,
            (r matches Err(e) && e matches KeyError::OffsetOutOfRange { .. }) <==> (alphabet_ok(
                n as int,
                base as int,
            ) && offsets@.len() >= 1 && !offsets_ok(offsets@, n as int)),
            r matches Err(e) ==> (e matches KeyError::OffsetOutOfRange { index, offset } ==> {
                &&& 0 <= index < offsets@.len()
                &&& offsets@[index as int] == offset
                &&& offset >= n
                &&& forall|j: int| 0 <= j < index ==> offsets@[j] < n
            }),
            (r matches Err(e) && (e matches KeyError::PlugSymbolOutOfRange { .. } || e
                matches KeyError::PlugSymbolReused { .. })) <==> (alphabet_ok(n as int, base as int)
                && offsets_ok(offsets@, n as int) && !pairs_ok(pairs@, base as int, n as int)),
            r matches Err(e) ==> ((e matches KeyError::PlugSymbolOutOfRange { .. } || e
                matches KeyError::PlugSymbolReused { .. }) ==> plug_build_err(
                pairs@,
                base as int,
                n as int,
                e,
            )),
    {
        if n == 0 || n > 256 || (base as usize) + n > 256 {
            return Err(KeyError::InvalidAlphabet);
        }
        if offsets.len() == 0 {
            return Err(KeyError::NoRotors);
        }
        let mut k: usize = 0;
        while k < offsets.len()
            invariant
                k <= offsets@.len(),
                forall|j: int| 0 <= j < k ==> offsets@[j] < n,
            decreases offsets@.len() - k,
        {
            if offsets[k] >= n {
                return Err(KeyError::OffsetOutOfRange { index: k, offset: offsets[k] });
            }
            k += 1;
        }
        let plug = match Plugboard::from_pairs(pairs, n, base) {
            Ok(p) => p,
            Err(e) => {
                return Err(e);
            },
        };
        let mut rotors: Vec<Vec<usize>> = Vec::new();
        let mut k: usize = 0;
        while k < offsets.len()
            invariant
                k <= offsets@.len(),
                rotors@.len() == k,
                n >= 1,
                forall|j: int| 0 <= j < offsets@.len() ==> offsets@[j] < n,
                forall|j: int|
                    0 <= j < k ==> rotor_table_wf(#[trigger] rotors@[j]@, n as int)
                        && rotors@[j]@[0] == offsets@[j],
            decreases offsets@.len() - k,
        {
            let mut rot: Vec<usize> = Vec::new();
            let mut i: usize = 0;
            while i < n
                invariant
                    i <= n,
                    rot@.len() == i,
                decreases n - i,
            {
                rot.push(0);
                i += 1;
            }
            Enigma::set_rot(&mut rot, offsets[k], n);
            proof {
                lemma_small_mod(offsets@[k as int] as nat, n as nat);
                assert(rot@[0] == offsets@[k as int]);
            }
            rotors.push(rot);
            k += 1;
        }
        let e = Enigma { rotors, rot_base: 0, base, n, plug };
        proof {
            assert(e@.starts =~= offsets@);
            assert(e@.plug == plug_table(pairs@, base as int, n as int));
            assert(e@ == init_model(offsets@, n, base, pairs@));
            assert forall|i: int| 0 <= i < n implies e@.in_range(#[trigger] e@.plug[i] as int)
                && e@.plug[e@.plug[i] - e@.base] == e@.base + i by {}
        }
        Ok(e)
    }

    /// Encode a whole message, streaming: one output symbol per input
    /// symbol, the machine advancing on each in-alphabet symbol.
    pub fn crypt_msg(&mut self, msg: &Vec<u8>) -> (out: Vec<u8>)
        requires
            old(self).wf(),
        ensures
            final(self).wf(),
            out@ == old(self)@.enc_msg(msg@),
            final(self)@ == old(self)@.run(msg@),
    {
        let mut out: Vec<u8> = Vec::new();
        let mut i: usize = 0;
        while i < msg.len()
            invariant
                i <= msg@.len(),
                self.wf(),
                out@ == old(self)@.enc_msg(msg@.take(i as int)),
                self@ == old(self)@.run(msg@.take(i as int)),
                old(self).wf(),
            decreases msg@.len() - i,
        {
            let ghost pre = msg@.take(i as int);
            let c = self.crypt_char(msg[i]);
            out.push(c);
            proof {
                assert(msg@.take(i + 1) =~= pre.push(msg@[i as int]));
                lemma_enc_msg_snoc(old(self)@, pre, msg@[i as int]);
            }
            i += 1;
        }
        proof {
            assert(msg@.take(msg@.len() as int) =~= msg@);
        }
        out
    }

    /// Decode a whole message, streaming, advancing the machine exactly as
    /// encoding the same positions would.
    pub fn decipher_msg(&mut self, msg: &Vec<u8>) -> (out: Vec<u8>)
        requires
            old(self).wf(),
        ensures
            final(self).wf(),
            out@ == old(self)@.dec_msg(msg@),
            final(self)@ == old(self)@.run(msg@),
    {
        let mut out: Vec<u8> = Vec::new();
        let mut i: usize = 0;
        while i < msg.len()
            invariant
                i <= msg@.len(),
                self.wf(),
                out@ == old(self)@.dec_msg(msg@.take(i as int)),
                self@ == old(self)@.run(msg@.take(i as int)),
                old(self).wf(),
            decreases msg@.len() - i,
        {
            let ghost pre = msg@.take(i as int);
            let c = self.decipher_char(msg[i]);
            out.push(c);
            proof {
                assert(msg@.take(i + 1) =~= pre.push(msg@[i as int]));
                lemma_dec_msg_snoc(old(self)@, pre, msg@[i as int]);
            }
            i += 1;
        }
        proof {
            assert(msg@.take(msg@.len() as int) =~= msg@);
        }
        out
    }

    /// The current shift amount of every rotor, in chain order.
    #[verifier::loop_isolation(false)]
    pub fn rotor_starts(&self) -> (r: Vec<usize>)
        requires
            self.wf(),
        ensures
            r@ == self@.starts,
    {
        let mut r: Vec<usize> = Vec::new();
        let mut k: usize = 0;
        while k < self.rotors.len()
            invariant
                k <= self.rotors@.len(),
                r@.len() == k,
                forall|j: int| 0 <= j < k ==> r@[j] == self@.starts[j],
            decreases self.rotors@.len() - k,
        {
            r.push(self.rotors[k][0]);
            k += 1;
        }
        proof {
            assert(r@ =~= self@.starts);
        }
        r
    }

    /// Which rotor advances on the next processed in-alphabet symbol.
    pub fn cursor(&self) -> (r: usize)
        ensures
            r == self@.cursor,
    {
        self.rot_base
    }
}

} // verus!
