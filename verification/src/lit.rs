//! Literals: a variable index together with a sign, packed in 32 bits.
use vstd::prelude::*;

verus! {

/// Number of bits below the sign bit of a literal.
pub const SIGN_POS: u32 = 31;

/// The sign bit of a literal's code: set for a negative literal.
pub const SIGN_MASK: u32 = 0x8000_0000;

/// The variable bits of a literal's code.
pub const VAR_MASK: u32 = 0x7fff_ffff;

/// The largest variable index a literal can hold (31 bits).
pub const MAX_VAR: usize = 0x7fff_ffff;

/// A literal: the low 31 bits hold the variable, the top bit the sign
/// (clear for a positive literal, set for a negative one).
#[derive(Clone, Copy, PartialEq, Eq, Debug, Structural)]
pub struct Lit(pub u32);

/// The literal of variable `var` with sign `is_neg`, as a code.
pub open spec fn lit_code(var: nat, is_neg: bool) -> u32 {
    if is_neg {
        (var + 0x8000_0000) as u32
    } else {
        var as u32
    }
}

impl Lit {
    /// The 32-bit code of the literal.
    pub open spec fn code(self) -> u32 {
        self.0
    }

    /// The variable of the literal.
    pub open spec fn var_spec(self) -> nat {
        (self.0 % 0x8000_0000) as nat
    }

    /// Whether the literal is positive.
    pub open spec fn is_pos_spec(self) -> bool {
        self.0 < 0x8000_0000
    }

    /// The literal of the same variable with the opposite sign.
    pub open spec fn opposite(self) -> Lit {
        if self.0 < 0x8000_0000 {
            Lit((self.0 + 0x8000_0000) as u32)
        } else {
            Lit((self.0 - 0x8000_0000) as u32)
        }
    }

    /// The literal that `new(var, is_neg)` builds.
    pub open spec fn spec_new(var: nat, is_neg: bool) -> Lit {
        Lit(lit_code(var, is_neg))
    }

    /// Builds the literal of variable `var`, negative when `is_neg`.
    pub fn new(var: usize, is_neg: bool) -> (l: Lit)
        requires
            var <= MAX_VAR,
        ensures
            l == Lit::spec_new(var as nat, is_neg),
            l.var_spec() == var,
            l.is_pos_spec() == !is_neg,
    {
        let v: u32 = var as u32;
        if is_neg {
            assert(v | 0x8000_0000u32 == v + 0x8000_0000u32) by (bit_vector)
                requires
                    v <= 0x7fff_ffffu32,
            ;
            Lit(v | SIGN_MASK)
        } else {
            Lit(v)
        }
    }

    /// Whether the literal is positive.
    pub fn is_pos(self) -> (b: bool)
        ensures
            b == self.is_pos_spec(),
    {
        let c: u32 = self.0;
        assert((c & 0x8000_0000u32 == 0u32) == (c < 0x8000_0000u32)) by (bit_vector);
        (self.0 & SIGN_MASK) == 0
    }

    /// The variable of the literal.
    pub fn var(self) -> (v: usize)
        ensures
            v == self.var_spec(),
            v <= MAX_VAR,
    {
        let c: u32 = self.0;
        assert(c & 0x7fff_ffffu32 == c % 0x8000_0000u32) by (bit_vector);
        (self.0 & VAR_MASK) as usize
    }

    /// The literal of the same variable with the opposite sign.
    pub fn negate(self) -> (l: Lit)
        ensures
            l == self.opposite(),
            l.var_spec() == self.var_spec(),
            l.is_pos_spec() == !self.is_pos_spec(),
    {
        let c: u32 = self.0;
        assert(c < 0x8000_0000u32 ==> c ^ 0x8000_0000u32 == c + 0x8000_0000u32) by (bit_vector);
        assert(c >= 0x8000_0000u32 ==> c ^ 0x8000_0000u32 == c - 0x8000_0000u32) by (bit_vector);
        Lit(self.0 ^ SIGN_MASK)
    }
}

impl core::ops::Neg for Lit {
    type Output = Lit;

    fn neg(self) -> (l: Lit) {
        self.negate()
    }
}

impl vstd::std_specs::ops::NegSpecImpl for Lit {
    open spec fn obeys_neg_spec() -> bool {
        true
    }

    open spec fn neg_req(self) -> bool {
        true
    }

    open spec fn neg_spec(self) -> Lit {
        self.opposite()
    }
}

/// Negation is an involution, keeps the variable and flips the sign.
pub proof fn lemma_neg_involution(l: Lit)
    ensures
        l.opposite().opposite() == l,
        l.opposite().var_spec() == l.var_spec(),
        l.opposite().is_pos_spec() == !l.is_pos_spec(),
        l.opposite() != l,
{
}

/// A literal is determined by its variable and its sign.
pub proof fn lemma_lit_determined(a: Lit, b: Lit)
    ensures
        (a == b) <==> (a.var_spec() == b.var_spec() && a.is_pos_spec() == b.is_pos_spec()),
{
    if a.var_spec() == b.var_spec() && a.is_pos_spec() == b.is_pos_spec() {
        assert(a.0 == b.0);
    }
}

/// `new` gives back the variable and sign it was built from.
pub proof fn lemma_new_roundtrip(var: nat, is_neg: bool)
    requires
        var <= MAX_VAR,
    ensures
        Lit::spec_new(var, is_neg).var_spec() == var,
        Lit::spec_new(var, is_neg).is_pos_spec() == !is_neg,
{
}

/// The magnitude of `i`, as an unsigned value.
pub open spec fn abs_spec(i: i32) -> nat {
    if i < 0 {
        (-i) as nat
    } else {
        i as nat
    }
}

/// The magnitude of `i` (what `i32::unsigned_abs` returns).
pub fn unsigned_abs(i: i32) -> (r: u32)
    ensures
        r == abs_spec(i),
{
    if i < 0 {
        let wide: i64 = i as i64;
        (-wide) as u32
    } else {
        i as u32
    }
}

/// The literal that the signed integer `i` stands for: variable `|i|`, negative when `i < 0`.
pub open spec fn signed_lit(i: i32) -> Lit {
    Lit::spec_new(abs_spec(i), i < 0)
}

/// Turns signed integers into literals: `k` becomes variable `|k|`, negative when `k < 0`.
pub fn to_lits(signed_values: &[i32]) -> (lits: Vec<Lit>)
    requires
        forall|k: int| 0 <= k < signed_values@.len() ==> signed_values@[k] != i32::MIN,
    ensures
        lits@.len() == signed_values@.len(),
        forall|k: int| 0 <= k < lits@.len() ==> #[trigger] lits@[k] == signed_lit(signed_values@[k]),
{
    let mut lits: Vec<Lit> = Vec::new();
    let n = signed_values.len();
    for k in 0..n
        invariant
            n == signed_values@.len(),
            lits@.len() == k,
            forall|j: int| 0 <= j < signed_values@.len() ==> signed_values@[j] != i32::MIN,
            forall|j: int| 0 <= j < k ==> #[trigger] lits@[j] == signed_lit(signed_values@[j]),
    {
        let i = signed_values[k];
        let a = unsigned_abs(i);
        lits.push(Lit::new(a as usize, i < 0));
    }
    lits
}

} // verus!
