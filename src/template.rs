//! Instruction templates: a bit pattern compiled into a base word and one
//! scatter mask per argument, and named instruction definitions over them.
use vstd::prelude::*;
use vstd::arithmetic::power2::*;
use vstd::bits::*;
use vstd::string::StringSliceAdditionalSpecFns;
use crate::bits::{bit_of, scattered, scatter, lemma_scattered_zero};

verus! {

/// Whether the pattern `p`, read most significant position first, holds
/// the byte `c` at bit position `i` counted from the low end.
pub open spec fn marks(p: Seq<u8>, c: u8, i: nat) -> bool {
    i < p.len() && p[p.len() - 1 - i] == c
}

/// `w` has exactly the bits set at which the pattern `p` holds `c`
/// (positions past the sixty-fourth are lost).
pub open spec fn is_pattern_word(w: u64, p: Seq<u8>, c: u8) -> bool {
    forall|i: nat| i < 64 ==> #[trigger] bit_of(w as nat, i) == marks(p, c, i)
}

/// The word that a template with `base` and `masks` encodes for `vals`,
/// using the first `n` argument values.
pub open spec fn applied_upto(base: u64, masks: Seq<u64>, vals: Seq<u64>, n: nat) -> u64
    decreases n,
{
    if n == 0 {
        base
    } else {
        applied_upto(base, masks, vals, (n - 1) as nat) | (scattered(
            masks[n - 1] as nat,
            vals[n - 1] as nat,
        ) as u64)
    }
}

/// The number of argument values that a template with `masks` uses out of
/// `vals`: the shorter of the two lengths.
pub open spec fn arity_used(masks: Seq<u64>, vals: Seq<u64>) -> nat {
    if masks.len() <= vals.len() {
        masks.len()
    } else {
        vals.len()
    }
}

/// The word that a template with `base` and `masks` encodes for `vals`.
pub open spec fn applied(base: u64, masks: Seq<u64>, vals: Seq<u64>) -> u64 {
    applied_upto(base, masks, vals, arity_used(masks, vals))
}

proof fn lemma_bit_of_shr(v: u64, i: u64)
    requires
        i < 64,
    ensures
        bit_of(v as nat, i as nat) == ((v >> i) & 1 == 1),
{
    lemma_u64_shr_is_div(v, i);
    let s = v >> i;
    assert(s & 1 == s % 2) by (bit_vector);
}

/// Compiles the word that has a set bit wherever `p` holds `c`.
fn pattern_word(p: &[u8], c: u8) -> (w: u64)
    ensures
        is_pattern_word(w, p@, c),
{
    let mut acc: u64 = 0;
    let mut k: usize = 0;
    proof {
        assert forall|i: nat| i < 64 implies #[trigger] bit_of(0u64 as nat, i) == marks(
            p@.take(0),
            c,
            i,
        ) by {
            let iu = i as u64;
            lemma_bit_of_shr(0, iu);
            assert((0u64 >> iu) & 1 == 0) by (bit_vector);
        }
    }
    while k < p.len()
        invariant
            k <= p@.len(),
            is_pattern_word(acc, p@.take(k as int), c),
        decreases p@.len() - k,
    {
        let b: u64 = if p[k] == c {
            1
        } else {
            0
        };
        let next = (acc << 1) | b;
        proof {
            let q = p@.take(k as int);
            let q1 = p@.take(k + 1);
            assert forall|i: nat| i < 64 implies #[trigger] bit_of(next as nat, i) == marks(
                q1,
                c,
                i,
            ) by {
                let iu = i as u64;
                lemma_bit_of_shr(next, iu);
                if i == 0 {
                    assert(((((acc << 1) | b) >> 0u64) & 1 == 1) == (b == 1)) by (bit_vector)
                        requires
                            b <= 1,
                    ;
                } else {
                    let j = (iu - 1) as u64;
                    assert((((acc << 1) | b) >> iu) & 1 == (acc >> j) & 1) by (bit_vector)
                        requires
                            b <= 1,
                            0 < iu < 64,
                            j == iu - 1,
                    ;
                    lemma_bit_of_shr(acc, j);
                    assert(bit_of(acc as nat, (i - 1) as nat) == marks(q, c, (i - 1) as nat));
                    if i < q1.len() {
                        assert(q1[q1.len() - 1 - i] == q[q.len() - 1 - (i - 1)]);
                    }
                }
            }
        }
        acc = next;
        k = k + 1;
    }
    proof {
        assert(p@.take(p@.len() as int) =~= p@);
    }
    acc
}

/// A compiled bit pattern: the word of its literal ones, and one scatter
/// mask per argument in the declared argument order.
#[derive(Debug)]
pub struct Opdef {
    pub base: u64,
    pub args: Vec<u64>,
}

impl Opdef {
    /// Compiles `spec_str` (`'1'`, `'0'` or an argument letter per bit, most
    /// significant first) with the arguments in the order of `arg_order`.
    pub fn new(spec_str: &str, arg_order: &str) -> (r: Opdef)
        ensures
            is_pattern_word(r.base, spec_str.spec_bytes(), 49u8),
            r.args@.len() == arg_order.spec_bytes().len(),
            forall|j: int|
                0 <= j < r.args@.len() ==> is_pattern_word(
                    #[trigger] r.args@[j],
                    spec_str.spec_bytes(),
                    arg_order.spec_bytes()[j],
                ),
    {
        let spec_bytes = spec_str.as_bytes();
        let arg_bytes = arg_order.as_bytes();
        let base = pattern_word(spec_bytes, 49u8);
        let mut args: Vec<u64> = Vec::new();
        let mut j: usize = 0;
        while j < arg_bytes.len()
            invariant
                j <= arg_bytes@.len(),
                args@.len() == j,
                forall|t: int|
                    0 <= t < j ==> is_pattern_word(#[trigger] args@[t], spec_bytes@, arg_bytes@[t]),
            decreases arg_bytes@.len() - j,
        {
            let m = pattern_word(spec_bytes, arg_bytes[j]);
            args.push(m);
            j = j + 1;
        }
        Opdef { base, args }
    }

    /// Encodes `arg_vals`: the base word with each value scattered into the
    /// mask of its position. Values and masks are paired up to the shorter
    /// of the two lists; the rest of the longer one is ignored.
    pub fn apply(&self, arg_vals: &[u64]) -> (r: u64)
        ensures
            r == applied(self.base, self.args@, arg_vals@),
    {
        let n: usize = if self.args.len() <= arg_vals.len() {
            self.args.len()
        } else {
            arg_vals.len()
        };
        let mut acc = self.base;
        let mut i: usize = 0;
        while i < n
            invariant
                n == arity_used(self.args@, arg_vals@),
                i <= n,
                acc == applied_upto(self.base, self.args@, arg_vals@, i as nat),
            decreases n - i,
        {
            let piece = scatter(self.args[i], arg_vals[i]);
            acc = acc | piece;
            i = i + 1;
        }
        acc
    }
}

/// With every argument value zero, a template encodes its base word.
pub proof fn lemma_apply_zero_args(t: &Opdef, vals: Seq<u64>)
    requires
        forall|i: int| 0 <= i < vals.len() ==> vals[i] == 0,
    ensures
        applied(t.base, t.args@, vals) == t.base,
{
    lemma_applied_upto_zero(t.base, t.args@, vals, arity_used(t.args@, vals));
}

proof fn lemma_applied_upto_zero(base: u64, masks: Seq<u64>, vals: Seq<u64>, n: nat)
    requires
        n <= vals.len(),
        forall|i: int| 0 <= i < vals.len() ==> vals[i] == 0,
    ensures
        applied_upto(base, masks, vals, n) == base,
    decreases n,
{
    if n > 0 {
        lemma_applied_upto_zero(base, masks, vals, (n - 1) as nat);
        lemma_scattered_zero(masks[n - 1] as nat);
        assert(base | 0 == base) by (bit_vector);
    }
}

/// A named instruction: a template, and a shift applied to its single
/// operand before encoding (zero for none).
#[derive(Debug)]
pub struct Idef {
    pub name: String,
    pub opdef: Opdef,
    pub shift: i32,
}

impl Idef {
    /// Encodes `args`. With no shift they go to the template as they are;
    /// with one, only the first value goes, shifted right by `shift` bits.
    pub fn apply(&self, args: &[u64]) -> (r: u64)
        requires
            self.shift != 0 ==> 0 < self.shift < 64 && args@.len() >= 1,
        ensures
            self.shift == 0 ==> r == applied(self.opdef.base, self.opdef.args@, args@),
            self.shift != 0 ==> r == applied(
                self.opdef.base,
                self.opdef.args@,
                seq![(args@[0] as nat / pow2(self.shift as nat)) as u64],
            ),
    {
        if self.shift == 0 {
            self.opdef.apply(args)
        } else {
            let s = self.shift as u64;
            let arg = args[0] >> s;
            proof {
                lemma_u64_shr_is_div(args@[0], s);
            }
            let one = vec![arg];
            proof {
                assert(one@ =~= seq![(args@[0] as nat / pow2(self.shift as nat)) as u64]);
            }
            self.opdef.apply(one.as_slice())
        }
    }
}

} // verus!
