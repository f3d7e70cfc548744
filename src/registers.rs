//! The register array and its update rule.
use std::collections::hash_map::DefaultHasher;
use std::hash::{Hash, Hasher};
use vstd::prelude::*;
use vstd::std_specs::bits::{axiom_u64_leading_zeros, u64_leading_zeros};

verus! {

/// The largest register count an estimator accepts.
///
/// The exact integer arithmetic of the estimate is carried out in `u128`,
/// which this bound keeps free of overflow.
pub const MAX_REGISTERS: usize = 0xFFFF_FFFF;

/// Why an estimator could not be built.
#[derive(Debug, PartialEq, Eq, Structural)]
pub enum HyperLogLogError {
    /// The register count was zero or above `MAX_REGISTERS`.
    InvalidArgument,
}

/// A HyperLogLog estimator: one register per slot, each holding the largest
/// rank seen among the hashes that map to that slot.
pub struct HyperLogLog {
    registers: Vec<u32>,
}

/// The rank of a hash: its number of leading zero bits out of 64.
pub open spec fn rank(h: u64) -> nat {
    u64_leading_zeros(h) as nat
}

/// The register a hash updates among `m`.
pub open spec fn slot(h: u64, m: nat) -> nat
    recommends
        m > 0,
{
    (h as nat) % m
}

/// `m` registers, all zero.
pub open spec fn zeros(m: nat) -> Seq<u32> {
    Seq::new(m, |j: int| 0u32)
}

/// The registers after one hash is absorbed: its slot is raised to its rank
/// if that is larger, and nothing else changes.
pub open spec fn absorb(regs: Seq<u32>, h: u64) -> Seq<u32>
    recommends
        regs.len() > 0,
{
    let j = slot(h, regs.len()) as int;
    if (regs[j] as nat) < rank(h) {
        regs.update(j, rank(h) as u32)
    } else {
        regs
    }
}

/// The registers after absorbing every hash of `hs`, in order.
pub open spec fn absorb_all(regs: Seq<u32>, hs: Seq<u64>) -> Seq<u32>
    decreases hs.len(),
{
    if hs.len() == 0 {
        regs
    } else {
        absorb(absorb_all(regs, hs.drop_last()), hs.last())
    }
}

/// The largest rank among the hashes of `hs` that map to register `j` of
/// `m`, or 0 if none does.
pub open spec fn max_rank(hs: Seq<u64>, m: nat, j: nat) -> nat
    decreases hs.len(),
{
    if hs.len() == 0 {
        0
    } else {
        let before = max_rank(hs.drop_last(), m, j);
        let h = hs.last();
        if slot(h, m) == j && rank(h) > before {
            rank(h)
        } else {
            before
        }
    }
}

/// Registers that an estimator can hold: at least one, at most
/// `MAX_REGISTERS`, each at most 64.
pub open spec fn valid_registers(regs: Seq<u32>) -> bool {
    &&& 1 <= regs.len() <= MAX_REGISTERS
    &&& forall|j: int| 0 <= j < regs.len() ==> regs[j] <= 64
}

/// Relies on `Hash::hash` of the item's type: it writes the item into the
/// hasher. Nothing is assumed of what it writes.
#[verifier::external_body]
fn write_item<H: Hash>(item: &H, hasher: &mut DefaultHasher) {
    item.hash(hasher)
}

/// The larger of two naturals.
pub open spec fn max_nat(a: nat, b: nat) -> nat {
    if a < b {
        b
    } else {
        a
    }
}

/// Absorbing hashes into any registers leaves each register at the larger of
/// its old value and the largest rank among the absorbed hashes that map to
/// it; the register count never changes.
pub proof fn lemma_absorb_all_is_max(regs: Seq<u32>, hs: Seq<u64>)
    requires
        regs.len() >= 1,
    ensures
        absorb_all(regs, hs).len() == regs.len(),
        forall|j: int|
            0 <= j < regs.len() ==> #[trigger] absorb_all(regs, hs)[j] as nat == max_nat(
                regs[j] as nat,
                max_rank(hs, regs.len(), j as nat),
            ),
    decreases hs.len(),
{
    if hs.len() > 0 {
        let prefix = hs.drop_last();
        lemma_absorb_all_is_max(regs, prefix);
        axiom_u64_leading_zeros(hs.last());
        let before = absorb_all(regs, prefix);
        assert forall|j: int| 0 <= j < regs.len() implies #[trigger] absorb_all(regs, hs)[j] as nat
            == max_nat(regs[j] as nat, max_rank(hs, regs.len(), j as nat)) by {
            assert(before[j] as nat == max_nat(
                regs[j] as nat,
                max_rank(prefix, regs.len(), j as nat),
            ));
        }
    }
}

/// After any sequence of hashes is absorbed into fresh registers, each
/// register holds exactly the largest rank among the hashes that map to it
/// (0 if none does).
pub proof fn lemma_register_is_max_rank(m: nat, hs: Seq<u64>)
    requires
        m >= 1,
    ensures
        absorb_all(zeros(m), hs).len() == m,
        forall|j: int|
            0 <= j < m ==> #[trigger] absorb_all(zeros(m), hs)[j] as nat == max_rank(
                hs,
                m,
                j as nat,
            ),
{
    lemma_absorb_all_is_max(zeros(m), hs);
    assert forall|j: int| 0 <= j < m implies #[trigger] absorb_all(zeros(m), hs)[j] as nat
        == max_rank(hs, m, j as nat) by {
        assert(zeros(m)[j] == 0);
    }
}

/// Absorbing a hash never lowers a register.
pub proof fn lemma_absorb_all_never_lowers(regs: Seq<u32>, hs: Seq<u64>)
    requires
        regs.len() >= 1,
    ensures
        forall|j: int| 0 <= j < regs.len() ==> regs[j] <= #[trigger] absorb_all(regs, hs)[j],
{
    lemma_absorb_all_is_max(regs, hs);
}

/// The largest rank over two sequences is the larger of the two maxima.
proof fn lemma_max_rank_concat(a: Seq<u64>, b: Seq<u64>, m: nat, j: nat)
    ensures
        max_rank(a + b, m, j) == max_nat(max_rank(a, m, j), max_rank(b, m, j)),
    decreases b.len(),
{
    if b.len() == 0 {
        assert(a + b =~= a);
    } else {
        assert((a + b).drop_last() =~= a + b.drop_last());
        lemma_max_rank_concat(a, b.drop_last(), m, j);
    }
}

/// Absorbing the same hash twice leaves the registers as absorbing it once.
pub proof fn lemma_absorb_twice(regs: Seq<u32>, h: u64)
    requires
        regs.len() >= 1,
    ensures
        absorb(absorb(regs, h), h) == absorb(regs, h),
{
    axiom_u64_leading_zeros(h);
}

/// Absorbing a sequence of hashes and then the same sequence again leaves
/// the registers as absorbing it once: repeats are not counted.
pub proof fn lemma_repeat_absorbs_nothing(regs: Seq<u32>, hs: Seq<u64>)
    requires
        regs.len() >= 1,
    ensures
        absorb_all(regs, hs + hs) == absorb_all(regs, hs),
{
    lemma_absorb_all_is_max(regs, hs + hs);
    lemma_absorb_all_is_max(regs, hs);
    assert forall|j: int| 0 <= j < regs.len() implies #[trigger] absorb_all(regs, hs + hs)[j]
        == absorb_all(regs, hs)[j] by {
        lemma_max_rank_concat(hs, hs, regs.len(), j as nat);
    }
    assert(absorb_all(regs, hs + hs) =~= absorb_all(regs, hs));
}

impl View for HyperLogLog {
    type V = Seq<u32>;

    closed spec fn view(&self) -> Seq<u32> {
        self.registers@
    }
}

impl HyperLogLog {
    /// The estimator's invariant.
    pub open spec fn wf(&self) -> bool {
        valid_registers(self@)
    }

    /// Builds an estimator with `m` registers, all zero.
    pub fn new(m: usize) -> (r: Result<HyperLogLog, HyperLogLogError>)
        ensures
            (1 <= m <= MAX_REGISTERS) <==> r is Ok,
            r is Ok ==> r->Ok_0.wf() && r->Ok_0@ == zeros(m as nat),
            r is Err ==> r->Err_0 == HyperLogLogError::InvalidArgument,
    {
        if m == 0 || m > MAX_REGISTERS {
            return Err(HyperLogLogError::InvalidArgument);
        }
        let registers: Vec<u32> = vec![0u32; m];
        let r = HyperLogLog { registers };
        assert(r@ =~= zeros(m as nat));
        Ok(r)
    }

    /// Absorbs a 64-bit hash: register `h % m` is raised to the number of
    /// leading zero bits of `h` if that is larger.
    pub fn add_hash(&mut self, h: u64)
        requires
            old(self).wf(),
        ensures
            final(self).wf(),
            final(self)@ == absorb(old(self)@, h),
            forall|j: int| 0 <= j < old(self)@.len() ==> old(self)@[j] <= #[trigger] final(self)@[j],
    {
        proof {
            axiom_u64_leading_zeros(h);
        }
        let m = self.registers.len();
        let j = (h % (m as u64)) as usize;
        let v = h.leading_zeros();
        if self.registers[j] < v {
            self.registers.set(j, v);
        }
    }

    /// Absorbs an item: it is hashed to 64 bits with a freshly built
    /// `DefaultHasher`, and the hash is absorbed as by `add_hash`.
    pub fn add<H: Hash>(&mut self, item: H)
        requires
            old(self).wf(),
        ensures
            final(self).wf(),
            exists|h: u64| final(self)@ == absorb(old(self)@, h),
            forall|j: int| 0 <= j < old(self)@.len() ==> old(self)@[j] <= #[trigger] final(self)@[j],
    {
        let mut hasher = DefaultHasher::new();
        write_item(&item, &mut hasher);
        let h = hasher.finish();
        self.add_hash(h);
    }

    /// The number of registers, `m`.
    pub fn len(&self) -> (r: usize)
        ensures
            r == self@.len(),
    {
        self.registers.len()
    }

    /// The registers, in slot order.
    pub fn registers(&self) -> (r: &Vec<u32>)
        ensures
            r@ == self@,
    {
        &self.registers
    }
}

} // verus!
