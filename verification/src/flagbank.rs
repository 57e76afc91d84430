//! A bank of sixteen boolean flags packed in one `u16`.
use vstd::prelude::*;

verus! {

/// Sixteen flags, numbered `0..16`, packed in one integer.
#[derive(Debug, Clone, Copy, PartialEq, Eq, Structural)]
pub struct FlagBank {
    flags: u16,
}

/// The flag `flag` is set in the packed value `bits`.
pub open spec fn bit_is_set(bits: u16, flag: u8) -> bool {
    flag < 16 && (bits >> flag) & 1u16 == 1u16
}

proof fn lemma_set_bit(x: u16, f: u8, g: u8)
    requires
        f < 16,
        g < 16,
    ensures
        bit_is_set(x | (1u16 << f), g) == (g == f || bit_is_set(x, g)),
{
    assert(((x | (1u16 << f)) >> g) & 1u16 == (if g == f { 1u16 } else { (x >> g) & 1u16 }))
        by (bit_vector)
        requires
            f < 16,
            g < 16,
    ;
    assert((x >> g) & 1u16 == 1u16 || (x >> g) & 1u16 == 0u16) by (bit_vector);
}

proof fn lemma_clear_bit(x: u16, f: u8, g: u8)
    requires
        f < 16,
        g < 16,
    ensures
        bit_is_set(x & !(1u16 << f), g) == (g != f && bit_is_set(x, g)),
{
    assert(((x & !(1u16 << f)) >> g) & 1u16 == (if g == f { 0u16 } else { (x >> g) & 1u16 }))
        by (bit_vector)
        requires
            f < 16,
            g < 16,
    ;
}

proof fn lemma_zero_bits(g: u8)
    requires
        g < 16,
    ensures
        !bit_is_set(0u16, g),
{
    assert((0u16 >> g) & 1u16 == 0u16) by (bit_vector);
}

proof fn lemma_bits_determine_value(a: u16, b: u16)
    requires
        forall|g: u8| g < 16 ==> (bit_is_set(a, g) <==> bit_is_set(b, g)),
    ensures
        a == b,
{
    assert forall|g: u8| g < 16 implies #[trigger] ((a >> g) & 1u16) == ((b >> g) & 1u16) by {
        assert(bit_is_set(a, g) <==> bit_is_set(b, g));
        assert((a >> g) & 1u16 == 1u16 || (a >> g) & 1u16 == 0u16) by (bit_vector);
        assert((b >> g) & 1u16 == 1u16 || (b >> g) & 1u16 == 0u16) by (bit_vector);
    }
    assert(a == b) by (bit_vector)
        requires
            (a >> 0u8) & 1u16 == (b >> 0u8) & 1u16,
            (a >> 1u8) & 1u16 == (b >> 1u8) & 1u16,
            (a >> 2u8) & 1u16 == (b >> 2u8) & 1u16,
            (a >> 3u8) & 1u16 == (b >> 3u8) & 1u16,
            (a >> 4u8) & 1u16 == (b >> 4u8) & 1u16,
            (a >> 5u8) & 1u16 == (b >> 5u8) & 1u16,
            (a >> 6u8) & 1u16 == (b >> 6u8) & 1u16,
            (a >> 7u8) & 1u16 == (b >> 7u8) & 1u16,
            (a >> 8u8) & 1u16 == (b >> 8u8) & 1u16,
            (a >> 9u8) & 1u16 == (b >> 9u8) & 1u16,
            (a >> 10u8) & 1u16 == (b >> 10u8) & 1u16,
            (a >> 11u8) & 1u16 == (b >> 11u8) & 1u16,
            (a >> 12u8) & 1u16 == (b >> 12u8) & 1u16,
            (a >> 13u8) & 1u16 == (b >> 13u8) & 1u16,
            (a >> 14u8) & 1u16 == (b >> 14u8) & 1u16,
            (a >> 15u8) & 1u16 == (b >> 15u8) & 1u16,
    ;
}

impl View for FlagBank {
    type V = Set<u8>;

    /// The set of flags that are set.
    closed spec fn view(&self) -> Set<u8> {
        Set::new(|f: u8| bit_is_set(self.flags, f))
    }
}

impl FlagBank {
    /// Only flags below sixteen can ever be set.
    pub proof fn lemma_view_bounded(self)
        ensures
            forall|f: u8| #[trigger] self@.contains(f) ==> f < 16,
    {
    }

    /// Two banks with the same flags are the same bank.
    pub proof fn lemma_view_injective(a: FlagBank, b: FlagBank)
        requires
            a@ == b@,
        ensures
            a == b,
    {
        assert forall|g: u8| g < 16 implies (bit_is_set(a.flags, g) <==> bit_is_set(b.flags, g)) by {
            assert(a@.contains(g) == bit_is_set(a.flags, g));
            assert(b@.contains(g) == bit_is_set(b.flags, g));
        }
        lemma_bits_determine_value(a.flags, b.flags);
    }

    /// A bank with no flag set.
    pub fn empty() -> (r: Self)
        ensures
            r@ == Set::<u8>::empty(),
    {
        let r = Self { flags: 0 };
        proof {
            assert forall|g: u8| !r@.contains(g) by {
                if g < 16 {
                    lemma_zero_bits(g);
                }
            }
            assert(r@ =~= Set::<u8>::empty());
        }
        r
    }

    /// Sets `flag`; the others are left as they were.
    pub fn set(&mut self, flag: u8)
        requires
            flag < 16,
        ensures
            final(self)@ == old(self)@.insert(flag),
    {
        let ghost before = self.flags;
        self.flags = self.flags | (1u16 << flag);
        proof {
            assert forall|g: u8| #[trigger] self@.contains(g) == old(self)@.insert(flag).contains(g) by {
                if g < 16 {
                    lemma_set_bit(before, flag, g);
                }
            }
            assert(self@ =~= old(self)@.insert(flag));
        }
    }

    /// Clears `flag`; the others are left as they were.
    pub fn unset(&mut self, flag: u8)
        requires
            flag < 16,
        ensures
            final(self)@ == old(self)@.remove(flag),
    {
        let ghost before = self.flags;
        self.flags = self.flags & !(1u16 << flag);
        proof {
            assert forall|g: u8| #[trigger] self@.contains(g) == old(self)@.remove(flag).contains(g) by {
                if g < 16 {
                    lemma_clear_bit(before, flag, g);
                }
            }
            assert(self@ =~= old(self)@.remove(flag));
        }
    }

    /// Whether `flag` is set.
    pub fn check(&self, flag: u8) -> (r: bool)
        requires
            flag < 16,
        ensures
            r == self@.contains(flag),
    {
        let r = (self.flags >> flag) & 1u16 == 1u16;
        r
    }
}

impl FlagBank {
    /// The packed value of the bank: flag `f` is bit `f`.
    pub closed spec fn bits(self) -> u16 {
        self.flags
    }

    /// The flags of a bank are the set bits of its packed value, and the
    /// packed value determines the bank.
    pub proof fn lemma_bits(self)
        ensures
            forall|f: u8| #[trigger] self@.contains(f) <==> bit_is_set(self.bits(), f),
            forall|o: FlagBank| o.bits() == self.bits() ==> o == self,
    {
    }

    /// The bank whose packed value is `bits`.
    pub closed spec fn of_bits(bits: u16) -> FlagBank {
        FlagBank { flags: bits }
    }

    /// A bank made from a packed value has that packed value.
    pub proof fn lemma_of_bits(bits: u16)
        ensures
            #[trigger] FlagBank::of_bits(bits).bits() == bits,
    {
    }

    /// The packed value of the bank, as stored.
    pub fn to_bits(&self) -> (r: u16)
        ensures
            r == self.bits(),
    {
        self.flags
    }

    /// The bank whose packed value is `bits`.
    pub fn from_bits(bits: u16) -> (r: Self)
        ensures
            r == FlagBank::of_bits(bits),
            r.bits() == bits,
    {
        FlagBank { flags: bits }
    }
}

impl Default for FlagBank {
    fn default() -> (r: Self)
        ensures
            r@ == Set::<u8>::empty(),
    {
        Self::empty()
    }
}

/// Setting a flag makes `check` report it, and touches no other flag.
/// `banks[i + 1]` is `banks[i]` with the flag `flags[i]` (below sixteen) set.
pub open spec fn set_step(banks: Seq<FlagBank>, flags: Seq<u8>, i: int) -> bool {
    flags[i] < 16 && banks[i + 1]@ == banks[i]@.insert(flags[i])
}

/// Setting flags one after another, starting from an empty bank, leaves
/// exactly those flags set, whatever their order.
pub proof fn law_sets_in_any_order(banks: Seq<FlagBank>, flags: Seq<u8>)
    requires
        banks.len() == flags.len() + 1,
        banks[0]@ == Set::<u8>::empty(),
        forall|i: int| 0 <= i < flags.len() ==> #[trigger] set_step(banks, flags, i),
    ensures
        forall|f: u8| #[trigger] banks.last()@.contains(f) <==> flags.contains(f),
    decreases flags.len(),
{
    if flags.len() > 0 {
        let n = flags.len() - 1;
        let b2 = banks.drop_last();
        let f2 = flags.drop_last();
        assert forall|i: int| 0 <= i < f2.len() implies #[trigger] set_step(b2, f2, i) by {
            assert(set_step(banks, flags, i));
            assert(b2[i + 1] == banks[i + 1]);
            assert(b2[i] == banks[i]);
            assert(f2[i] == flags[i]);
        }
        law_sets_in_any_order(b2, f2);
        assert(set_step(banks, flags, n));
        assert forall|f: u8| #[trigger] banks.last()@.contains(f) <==> flags.contains(f) by {
            assert(b2.last() == banks[n]);
            if f2.contains(f) {
                let j = choose|j: int| 0 <= j < f2.len() && f2[j] == f;
                assert(flags[j] == f);
            }
            if flags.contains(f) && f != flags[n] {
                let j = choose|j: int| 0 <= j < flags.len() && flags[j] == f;
                assert(f2[j] == f);
            }
            if f == flags[n] {
                assert(flags.contains(f)) by {
                    assert(flags[n] == f);
                }
            }
        }
    }
}

pub proof fn law_set_then_check(bank: FlagBank, after: FlagBank, flag: u8, other: u8)
    requires
        flag < 16,
        after@ == bank@.insert(flag),
    ensures
        after@.contains(flag),
        other != flag ==> (after@.contains(other) == bank@.contains(other)),
{
}

/// Clearing a flag makes `check` deny it, and touches no other flag.
pub proof fn law_unset_then_check(bank: FlagBank, after: FlagBank, flag: u8, other: u8)
    requires
        flag < 16,
        after@ == bank@.remove(flag),
    ensures
        !after@.contains(flag),
        other != flag ==> (after@.contains(other) == bank@.contains(other)),
{
}

/// Setting a flag and clearing it again restores a bank where it was clear.
pub proof fn law_set_unset_roundtrip(bank: FlagBank, mid: FlagBank, after: FlagBank, flag: u8)
    requires
        flag < 16,
        !bank@.contains(flag),
        mid@ == bank@.insert(flag),
        after@ == mid@.remove(flag),
    ensures
        after == bank,
{
    assert(after@ =~= bank@);
    FlagBank::lemma_view_injective(after, bank);
}

/// Setting a flag twice is the same as setting it once.
pub proof fn law_set_idempotent(bank: FlagBank, once: FlagBank, twice: FlagBank, flag: u8)
    requires
        flag < 16,
        once@ == bank@.insert(flag),
        twice@ == once@.insert(flag),
    ensures
        twice == once,
{
    assert(twice@ =~= once@);
    FlagBank::lemma_view_injective(twice, once);
}

} // verus!
