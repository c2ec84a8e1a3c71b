//! The plugboard: a static involutive pairwise symbol substitution.
//!
//! The table is built once from a list of disjoint symbol pairs and never
//! mutated afterwards. A symbol that appears in no pair maps to itself; for
//! each pair `(k, v)` the table maps `k` to `v` and `v` to `k`, so the table
//! is an involution over the alphabet.

use crate::errors::KeyError;
use vstd::prelude::*;

verus! {

/// An involutive symbol-substitution table over the alphabet
/// `[base, base + table.len())`.
pub struct Plugboard {
    /// Code of the first in-alphabet symbol.
    pub base: u8,
    /// `table[i]` is the symbol that the symbol with code `base + i` maps to.
    pub table: Vec<u8>,
}

/// Does pair `p` mention symbol `s`?
pub open spec fn pair_uses(p: (u8, u8), s: u8) -> bool {
    p.0 == s || p.1 == s
}

/// Is symbol `s` mentioned by any pair before index `q`?
pub open spec fn used_before(pairs: Seq<(u8, u8)>, q: int, s: u8) -> bool {
    exists|j: int| 0 <= j < q && pair_uses(#[trigger] pairs[j], s)
}

/// Are both symbols of pair `p` inside the alphabet?
pub open spec fn pair_in_range(p: (u8, u8), base: int, n: int) -> bool {
    base <= p.0 < base + n && base <= p.1 < base + n
}

/// Is the pair at index `q` acceptable: in range, not a self-pair, and
/// sharing no symbol with an earlier pair?
pub open spec fn pair_ok_at(pairs: Seq<(u8, u8)>, base: int, n: int, q: int) -> bool {
    &&& pair_in_range(pairs[q], base, n)
    &&& pairs[q].0 != pairs[q].1
    &&& !used_before(pairs, q, pairs[q].0)
    &&& !used_before(pairs, q, pairs[q].1)
}

/// A pair list is acceptable iff every pair is.
pub open spec fn pairs_ok(pairs: Seq<(u8, u8)>, base: int, n: int) -> bool {
    forall|q: int| 0 <= q < pairs.len() ==> pair_ok_at(pairs, base, n, q)
}

/// The table that maps every symbol to itself.
pub open spec fn identity_table(base: int, n: int) -> Seq<u8> {
    Seq::new(n as nat, |i: int| (base + i) as u8)
}

/// Fold the pairs into a table, front first: each pair overwrites its two
/// slots with each other's symbol.
pub open spec fn plug_fold(pairs: Seq<(u8, u8)>, base: int, acc: Seq<u8>) -> Seq<u8>
    decreases pairs.len(),
{
    if pairs.len() == 0 {
        acc
    } else {
        let k = pairs.first().0;
        let v = pairs.first().1;
        plug_fold(pairs.drop_first(), base, acc.update(k - base, v).update(v - base, k))
    }
}

/// The table an acceptable pair list builds over the identity table.
pub open spec fn plug_table(pairs: Seq<(u8, u8)>, base: int, n: int) -> Seq<u8> {
    plug_fold(pairs, base, identity_table(base, n))
}

/// Does `e` correctly report the first offending pair of `pairs`: all
/// earlier pairs acceptable, and the named symbol the first one at fault
/// inside its pair?
pub open spec fn plug_build_err(pairs: Seq<(u8, u8)>, base: int, n: int, e: KeyError) -> bool {
    ||| (e matches KeyError::PlugSymbolOutOfRange { index, symbol } && {
        &&& 0 <= index < pairs.len()
        &&& (forall|q: int| 0 <= q < index ==> pair_ok_at(pairs, base, n, q))
        &&& !(base <= symbol < base + n)
        &&& if !(base <= pairs[index as int].0 < base + n) {
            symbol == pairs[index as int].0
        } else {
            symbol == pairs[index as int].1
        }
    })
    ||| (e matches KeyError::PlugSymbolReused { index, symbol } && {
        &&& 0 <= index < pairs.len()
        &&& (forall|q: int| 0 <= q < index ==> pair_ok_at(pairs, base, n, q))
        &&& pair_in_range(pairs[index as int], base, n)
        &&& pair_uses(pairs[index as int], symbol)
        &&& if used_before(pairs, index as int, pairs[index as int].0) {
            symbol == pairs[index as int].0
        } else {
            symbol == pairs[index as int].1 && (pairs[index as int].0 == pairs[index as int].1
                || used_before(pairs, index as int, pairs[index as int].1))
        }
    })
}

proof fn lemma_plug_fold_snoc(pairs: Seq<(u8, u8)>, pr: (u8, u8), base: int, acc: Seq<u8>)
    ensures
        plug_fold(pairs.push(pr), base, acc) == plug_fold(pairs, base, acc).update(
            pr.0 - base,
            pr.1,
        ).update(pr.1 - base, pr.0),
    decreases pairs.len(),
{
    reveal_with_fuel(plug_fold, 3);
    if pairs.len() == 0 {
        assert(pairs.push(pr).first() == pr);
        assert(pairs.push(pr).drop_first() =~= pairs);
    } else {
        let k = pairs.first().0;
        let v = pairs.first().1;
        assert(pairs.push(pr).first() == pairs.first());
        assert(pairs.push(pr).drop_first() =~= pairs.drop_first().push(pr));
        lemma_plug_fold_snoc(
            pairs.drop_first(),
            pr,
            base,
            acc.update(k - base, v).update(v - base, k),
        );
    }
}

impl Plugboard {
    /// The table as a sequence of symbols.
    pub open spec fn view(&self) -> Seq<u8> {
        self.table@
    }

    /// Alphabet size.
    pub open spec fn spec_n(&self) -> int {
        self.table@.len() as int
    }

    /// The table invariant: a nonempty alphabet fitting in a byte, every
    /// entry in range, and the table an involution.
    pub open spec fn wf(&self) -> bool {
        &&& 1 <= self.spec_n()
        &&& self.base + self.spec_n() <= 256
        &&& forall|i: int|
            0 <= i < self.spec_n() ==> self.base <= #[trigger] self.table@[i] < self.base
                + self.spec_n() && self.table@[self.table@[i] - self.base] == self.base + i
    }

    /// What `substitute` returns: the table entry for an in-alphabet symbol,
    /// the symbol itself otherwise.
    pub open spec fn spec_sub(&self, ch: u8) -> u8 {
        if self.base <= ch < self.base + self.spec_n() {
            self.table@[ch - self.base]
        } else {
            ch
        }
    }

    /// Look one symbol up, with identity fallback outside the alphabet.
    pub fn substitute(&self, ch: u8) -> (r: u8)
        requires
            self.wf(),
        ensures
            r == self.spec_sub(ch),
    {
        let n = self.table.len();
        if ch >= self.base && (ch as usize) < self.base as usize + n {
            self.table[(ch - self.base) as usize]
        } else {
            ch
        }
    }

    /// Build a plugboard for the alphabet `[base, base + n)` from a list of
    /// pairs, validating that every symbol is in range and that no symbol
    /// appears twice. On the first offending pair, construction fails with
    /// the pair's index and the offending symbol, and no table is produced.
    #[verifier::loop_isolation(false)]
    pub fn from_pairs(pairs: &Vec<(u8, u8)>, n: usize, base: u8) -> (r: Result<
        Plugboard,
        KeyError,
    >)
        requires
            1 <= n,
            base + n <= 256,
        ensures
            (r is Ok) <==> pairs_ok(pairs@, base as int, n as int),
            r matches Ok(p) ==> p.wf() && p.base == base && p@.len() == n && p@ == plug_table(
                pairs@,
                base as int,
                n as int,
            ),
            r matches Ok(p) ==> forall|q: int|
                #![trigger pairs@[q]]
                0 <= q < pairs@.len() ==> p@[pairs@[q].0 - base] == pairs@[q].1 && p@[pairs@[q].1
                    - base] == pairs@[q].0,
            r matches Err(e) ==> plug_build_err(pairs@, base as int, n as int, e),
    {
        let mut table: Vec<u8> = Vec::new();
        let mut i: usize = 0;
        while i < n
            invariant
                i <= n,
                table@.len() == i,
                forall|j: int| 0 <= j < i ==> table@[j] == base + j,
            decreases n - i,
        {
            table.push(base + i as u8);
            i += 1;
        }
        assert(table@ =~= identity_table(base as int, n as int));

        let mut p: usize = 0;
        while p < pairs.len()
            invariant
                p <= pairs.len(),
                table@.len() == n,
                forall|q: int| 0 <= q < p ==> pair_ok_at(pairs@, base as int, n as int, q),
                table@ == plug_fold(pairs@.take(p as int), base as int, identity_table(
                    base as int,
                    n as int,
                )),
                forall|x: int|
                    0 <= x < n ==> base <= #[trigger] table@[x] < base + n
                        && table@[table@[x] - base] == base + x,
                forall|x: int|
                    0 <= x < n ==> ((#[trigger] table@[x] == base + x) <==> !used_before(
                        pairs@,
                        p as int,
                        (base + x) as u8,
                    )),
                forall|q: int|
                    #![trigger pairs@[q]]
                    0 <= q < p ==> table@[pairs@[q].0 - base] == pairs@[q].1 && table@[pairs@[q].1
                        - base] == pairs@[q].0,
            decreases pairs.len() - p,
        {
            let (k, v) = pairs[p];
            let ghost old_table = table@;
            if k < base || (k as usize) >= base as usize + n {
                assert(!pair_ok_at(pairs@, base as int, n as int, p as int));
                return Err(KeyError::PlugSymbolOutOfRange { index: p, symbol: k });
            }
            if v < base || (v as usize) >= base as usize + n {
                assert(!pair_ok_at(pairs@, base as int, n as int, p as int));
                return Err(KeyError::PlugSymbolOutOfRange { index: p, symbol: v });
            }
            let ki = (k - base) as usize;
            let vi = (v - base) as usize;
            if table[ki] != k {
                assert(used_before(pairs@, p as int, k));
                assert(!pair_ok_at(pairs@, base as int, n as int, p as int));
                return Err(KeyError::PlugSymbolReused { index: p, symbol: k });
            }
            if v == k || table[vi] != v {
                assert(v == k || used_before(pairs@, p as int, v));
                assert(!used_before(pairs@, p as int, k));
                assert(!pair_ok_at(pairs@, base as int, n as int, p as int));
                return Err(KeyError::PlugSymbolReused { index: p, symbol: v });
            }
            assert(!used_before(pairs@, p as int, k));
            assert(!used_before(pairs@, p as int, v));
            assert(pair_ok_at(pairs@, base as int, n as int, p as int));
            table[ki] = v;
            table[vi] = k;
            proof {
                assert(table@ =~= old_table.update(k - base, v).update(v - base, k));
                assert(pairs@.take(p + 1) =~= pairs@.take(p as int).push(pairs@[p as int]));
                lemma_plug_fold_snoc(
                    pairs@.take(p as int),
                    pairs@[p as int],
                    base as int,
                    identity_table(base as int, n as int),
                );
                // The two freshly claimed slots keep the table an involution.
                assert forall|x: int|
                    0 <= x < n implies base <= #[trigger] table@[x] < base + n
                    && table@[table@[x] - base] == base + x by {
                    if x == k - base {
                        assert(table@[x] == v);
                        assert(table@[v - base] == k);
                    } else if x == v - base {
                        assert(table@[x] == k);
                        assert(table@[k - base] == v);
                    } else {
                        assert(table@[x] == old_table[x]);
                        assert(old_table[x] != k) by {
                            if old_table[x] == k {
                                assert(old_table[k - base] == base + x);
                                assert(old_table[k - base] == k);
                            }
                        }
                        assert(old_table[x] != v) by {
                            if old_table[x] == v {
                                assert(old_table[v - base] == base + x);
                                assert(old_table[v - base] == v);
                            }
                        }
                        assert(table@[old_table[x] - base] == old_table[old_table[x] - base]);
                    }
                }
                // Freshness still characterises exactly the symbols used so far.
                assert forall|x: int|
                    0 <= x < n implies ((#[trigger] table@[x] == base + x) <==> !used_before(
                    pairs@,
                    p + 1,
                    (base + x) as u8,
                )) by {
                    let s = (base + x) as u8;
                    if x == k - base || x == v - base {
                        assert(pair_uses(pairs@[p as int], s));
                        assert(used_before(pairs@, p + 1, s));
                    } else {
                        assert(table@[x] == old_table[x]);
                        assert(!pair_uses(pairs@[p as int], s));
                        assert(used_before(pairs@, p + 1, s) == used_before(pairs@, p as int, s))
                            by {
                            if used_before(pairs@, p + 1, s) {
                                let j = choose|j: int|
                                    0 <= j < p + 1 && pair_uses(#[trigger] pairs@[j], s);
                                assert(j < p);
                            }
                        }
                    }
                }
                // Earlier pairs keep their slots: their symbols are distinct
                // from the two just claimed.
                assert forall|q: int|
                    #![trigger pairs@[q]]
                    0 <= q < p + 1 implies table@[pairs@[q].0 - base] == pairs@[q].1
                    && table@[pairs@[q].1 - base] == pairs@[q].0 by {
                    if q < p {
                        assert(pair_ok_at(pairs@, base as int, n as int, q));
                        assert(pair_uses(pairs@[q], pairs@[q].0));
                        assert(pair_uses(pairs@[q], pairs@[q].1));
                        assert(used_before(pairs@, p as int, pairs@[q].0));
                        assert(used_before(pairs@, p as int, pairs@[q].1));
                        assert(pairs@[q].0 != k && pairs@[q].0 != v);
                        assert(pairs@[q].1 != k && pairs@[q].1 != v);
                        assert(table@[pairs@[q].0 - base] == old_table[pairs@[q].0 - base]);
                        assert(table@[pairs@[q].1 - base] == old_table[pairs@[q].1 - base]);
                    } else {
                        assert(table@[k - base] == v);
                        assert(table@[v - base] == k);
                    }
                }
            }
            p += 1;
        }
        assert(pairs@.take(pairs@.len() as int) =~= pairs@);
        Ok(Plugboard { base, table })
    }
}

/// Read a symbol stream as consecutive pairs, as a plugboard key is usually
/// written down; an unpaired trailing symbol is ignored.
#[verifier::loop_isolation(false)]
pub fn pairs_from_symbols(syms: &Vec<u8>) -> (pairs: Vec<(u8, u8)>)
    ensures
        pairs@.len() == syms@.len() / 2,
        forall|i: int|
            0 <= i < pairs@.len() ==> #[trigger] pairs@[i] == (syms@[2 * i], syms@[2 * i + 1]),
{
    let mut pairs: Vec<(u8, u8)> = Vec::new();
    let mut k: usize = 0;
    while k + 1 < syms.len()
        invariant
            pairs@.len() * 2 == k,
            k <= syms@.len(),
            k % 2 == 0,
            forall|i: int|
                0 <= i < pairs@.len() ==> #[trigger] pairs@[i] == (syms@[2 * i], syms@[2 * i + 1]),
        decreases syms@.len() - k,
    {
        pairs.push((syms[k], syms[k + 1]));
        k += 2;
    }
    pairs
}

/// Plugboard involution: substituting any symbol twice returns the original
/// symbol, for configured pairs and untouched symbols alike.
pub proof fn lemma_substitute_involution(p: Plugboard, ch: u8)
    requires
        p.wf(),
    ensures
        p.spec_sub(p.spec_sub(ch)) == ch,
{
}

} // verus!
