//! The native (off-circuit) windowed Pedersen commitment scheme, and the
//! mathematical model both the native scheme and the in-circuit gadget are
//! proved against.
//!
//! A commitment to a bit string under parameters `(generators, randomness
//! base)` is `sum_w sum_i bit(w, i) * generator(w, i) + encode(randomness) *
//! randomness_base`, where `encode` reads the randomness bits as a
//! little-endian integer.  The model states this twice: as the closed form
//! above (`pedersen_commitment_value`) and as the left-to-right fold of
//! conditional additions and doublings that both implementations actually
//! perform (`window_fold` and `randomness_fold`);
//! `lemma_randomness_fold_closed` ties the two together.

use vstd::arithmetic::div_mod::{
    lemma_add_mod_noop, lemma_add_mod_noop_right, lemma_mod_division_less_than_divisor,
    lemma_mod_multiples_basic, lemma_mul_mod_noop_right, lemma_small_mod,
};
use vstd::prelude::*;

use crate::group::{GroupElement, GROUP_ORDER, SUBGROUP_ORDER};

verus! {

/// Machine bound on a scheme's capacity in bits, so window counts and sizes
/// stay comfortably inside `usize` and `u64` arithmetic.
pub const MAX_CAPACITY_BITS: u64 = 65536;

/// Failure surface of the native commitment scheme.
#[derive(Clone, Copy, Debug, PartialEq, Eq, Structural)]
pub enum CommitmentError {
    /// The committed input holds more bits than `NUM_WINDOWS * WINDOW_SIZE`;
    /// carries the offending bit count.
    IncorrectInputLength(usize),
}

/// The bits of one byte, least significant first.
pub open spec fn bits_of_byte(b: u8) -> Seq<bool> {
    Seq::new(8, |i: int| (b >> (i as u8)) & 1 == 1)
}

/// The bits of a byte sequence: each byte little-endian, bytes in order.
/// This is the one bit-serialization convention, shared by inputs and
/// randomness, natively and in circuit.
pub open spec fn bits_of_bytes(s: Seq<u8>) -> Seq<bool> {
    Seq::new(s.len() * 8, |i: int| bits_of_byte(s[i / 8])[i % 8])
}

/// The little-endian integer the bit sequence encodes, read from
/// position `j` on.
pub open spec fn bits_value_from(s: Seq<bool>, j: int) -> int
    decreases s.len() - j,
{
    if !(0 <= j < s.len()) {
        0
    } else {
        (if s[j] {
            1int
        } else {
            0int
        }) + 2 * bits_value_from(s, j + 1)
    }
}

/// The fold both implementations perform over the input bits: starting from
/// `acc`, bit `j` conditionally adds `generators[j / window_size][j %
/// window_size]`.
pub open spec fn window_fold(
    acc: int,
    generators: Seq<Seq<int>>,
    window_size: int,
    bits: Seq<bool>,
    j: int,
) -> int
    decreases bits.len() - j,
{
    if !(0 <= j < bits.len()) {
        acc
    } else {
        let next = if bits[j] {
            (acc + generators[j / window_size][j % window_size]) % (GROUP_ORDER as int)
        } else {
            acc
        };
        window_fold(next, generators, window_size, bits, j + 1)
    }
}

/// The fold both implementations perform over the randomness bits: bit `j`
/// conditionally adds the current power of the randomness base, and the base
/// doubles at every step.
pub open spec fn randomness_fold(acc: int, base: int, bits: Seq<bool>, j: int) -> int
    decreases bits.len() - j,
{
    if !(0 <= j < bits.len()) {
        acc
    } else {
        let next = if bits[j] {
            (acc + base) % (GROUP_ORDER as int)
        } else {
            acc
        };
        randomness_fold(next, (base + base) % (GROUP_ORDER as int), bits, j + 1)
    }
}

/// The commitment in closed form: the windowed sum of the input bits plus
/// the randomness scalar times the randomness base.
pub open spec fn pedersen_commitment_value(
    generators: Seq<Seq<int>>,
    window_size: int,
    randomness_base: int,
    input_bits: Seq<bool>,
    randomness_bits: Seq<bool>,
) -> int {
    (window_fold(0, generators, window_size, input_bits, 0) + bits_value_from(randomness_bits, 0)
        * randomness_base) % (GROUP_ORDER as int)
}

/// The little-endian value of a bit sequence is never negative.
pub proof fn lemma_bits_value_from_nonneg(s: Seq<bool>, j: int)
    ensures
        bits_value_from(s, j) >= 0,
    decreases s.len() - j,
{
    if 0 <= j < s.len() {
        lemma_bits_value_from_nonneg(s, j + 1);
    }
}

/// The windowed fold stays inside the group's canonical range.
pub proof fn lemma_window_fold_range(
    acc: int,
    generators: Seq<Seq<int>>,
    window_size: int,
    bits: Seq<bool>,
    j: int,
)
    requires
        0 <= acc < GROUP_ORDER as int,
    ensures
        0 <= window_fold(acc, generators, window_size, bits, j) < GROUP_ORDER as int,
    decreases bits.len() - j,
{
    if 0 <= j < bits.len() {
        if bits[j] {
            lemma_mod_division_less_than_divisor(
                acc + generators[j / window_size][j % window_size],
                GROUP_ORDER as int,
            );
        }
        let next = if bits[j] {
            (acc + generators[j / window_size][j % window_size]) % (GROUP_ORDER as int)
        } else {
            acc
        };
        lemma_window_fold_range(next, generators, window_size, bits, j + 1);
    }
}

/// The fold of conditional additions and doublings computes exactly the
/// randomness scalar times the base, added to the accumulator: the bridge
/// from what the loops do to the closed-form commitment.
pub proof fn lemma_randomness_fold_closed(acc: int, base: int, bits: Seq<bool>, j: int)
    requires
        0 <= acc < GROUP_ORDER as int,
        0 <= base < GROUP_ORDER as int,
    ensures
        randomness_fold(acc, base, bits, j) == (acc + bits_value_from(bits, j) * base) % (
        GROUP_ORDER as int),
    decreases bits.len() - j,
{
    let n = GROUP_ORDER as int;
    if !(0 <= j < bits.len()) {
        assert(bits_value_from(bits, j) == 0);
        lemma_small_mod(acc as nat, GROUP_ORDER as nat);
    } else {
        let bit: int = if bits[j] {
            1
        } else {
            0
        };
        let acc1 = if bits[j] {
            (acc + base) % n
        } else {
            acc
        };
        let base1 = (base + base) % n;
        lemma_mod_division_less_than_divisor(acc + base, n);
        lemma_mod_division_less_than_divisor(base + base, n);
        lemma_randomness_fold_closed(acc1, base1, bits, j + 1);
        let k = bits_value_from(bits, j + 1);
        lemma_bits_value_from_nonneg(bits, j + 1);
        // Replace the reduced doubled base by the unreduced one.
        lemma_mul_mod_noop_right(k, base + base, n);
        lemma_add_mod_noop_right(acc1, k * base1, n);
        lemma_add_mod_noop_right(acc1, k * (base + base), n);
        assert((acc1 + k * base1) % n == (acc1 + k * (base + base)) % n);
        // Replace the reduced accumulator by the unreduced one.
        lemma_small_mod(acc1 as nat, GROUP_ORDER as nat);
        lemma_add_mod_noop(acc + bit * base, k * (base + base), n);
        assert(acc1 % n == (acc + bit * base) % n) by {
            if bits[j] {
                assert(1 * base == base);
            } else {
                assert(0 * base == 0);
                lemma_small_mod(acc as nat, GROUP_ORDER as nat);
            }
        }
        assert((acc1 + k * (base + base)) % n == ((acc + bit * base) + k * (base + base)) % n) by {
            lemma_add_mod_noop(acc1, k * (base + base), n);
        }
        // Regroup the scalar: bit + 2k doublings of the base.
        assert((acc + bit * base) + k * (base + base) == acc + (bit + 2 * k) * base)
            by (nonlinear_arith);
        assert(bits_value_from(bits, j) == bit + 2 * k);
    }
}

/// Native commitment parameters: `num_windows` windows of `window_size`
/// generators each, and the base point the randomness scalar multiplies.
#[derive(Clone, Debug)]
pub struct PedersenCommitment {
    pub num_windows: usize,
    pub window_size: usize,
    pub generators: Vec<Vec<GroupElement>>,
    pub randomness_base: GroupElement,
}

impl PedersenCommitment {
    /// Shape and range invariant of the parameters.
    pub open spec fn well_formed(self) -> bool {
        &&& 1 <= self.num_windows
        &&& 1 <= self.window_size
        &&& self.num_windows * self.window_size <= MAX_CAPACITY_BITS as int
        &&& self.generators@.len() == self.num_windows
        &&& forall|w: int|
            0 <= w < self.generators@.len() ==> (#[trigger] self.generators@[w])@.len()
                == self.window_size
        &&& forall|w: int, i: int|
            0 <= w < self.generators@.len() && 0 <= i < self.generators@[w]@.len() ==> (
            #[trigger] self.generators@[w]@[i]).well_formed()
        &&& self.randomness_base.well_formed()
    }

    /// Every generator, the randomness base included, lies in the
    /// prime-order subgroup.
    pub open spec fn in_subgroup(self) -> bool {
        &&& forall|w: int, i: int|
            0 <= w < self.generators@.len() && 0 <= i < self.generators@[w]@.len() ==> (
            #[trigger] self.generators@[w]@[i]).in_subgroup()
        &&& self.randomness_base.in_subgroup()
    }

    /// The generator table as plain residues.
    pub open spec fn generator_values(self) -> Seq<Seq<int>> {
        self.generators@.map_values(
            |row: Vec<GroupElement>| row@.map_values(|g: GroupElement| g.value as int),
        )
    }

    /// The scheme's capacity: the number of input bits it can commit to.
    pub open spec fn spec_capacity_bits(self) -> int {
        self.num_windows * self.window_size
    }

    /// The commitment this parameter set assigns to the given input and
    /// randomness bits.
    pub open spec fn spec_commitment(self, input_bits: Seq<bool>, randomness_bits: Seq<bool>) -> int {
        pedersen_commitment_value(
            self.generator_values(),
            self.window_size as int,
            self.randomness_base.value as int,
            input_bits,
            randomness_bits,
        )
    }

    /// The scheme's capacity in bits.
    pub fn capacity_in_bits(&self) -> (r: u64)
        requires
            self.well_formed(),
        ensures
            r == self.spec_capacity_bits(),
    {
        (self.num_windows as u64) * (self.window_size as u64)
    }
}

/// The generator the deterministic setup derives for a slot index: an
/// element of the prime-order subgroup (an even residue), stepping through
/// the subgroup from the seed.
pub open spec fn derived_generator(seed: int, index: int) -> int {
    2 * ((seed % (SUBGROUP_ORDER as int) + index) % (SUBGROUP_ORDER as int))
}

impl PedersenCommitment {
    /// Deterministic parameter generation: fills every window slot and the
    /// randomness base with subgroup elements derived from the seed.
    pub fn setup(num_windows: usize, window_size: usize, seed: u64) -> (r: PedersenCommitment)
        requires
            1 <= num_windows,
            1 <= window_size,
            num_windows * window_size <= MAX_CAPACITY_BITS as int,
        ensures
            r.well_formed(),
            r.in_subgroup(),
            r.num_windows == num_windows,
            r.window_size == window_size,
            forall|w: int, i: int|
                0 <= w < num_windows && 0 <= i < window_size ==> (
                #[trigger] r.generators@[w]@[i]).value == derived_generator(
                    seed as int,
                    w * window_size + i,
                ),
            r.randomness_base.value == derived_generator(
                seed as int,
                num_windows * window_size,
            ),
    {
        let mut generators: Vec<Vec<GroupElement>> = Vec::new();
        let mut w: usize = 0;
        while w < num_windows
            invariant
                w <= num_windows,
                1 <= num_windows,
                1 <= window_size,
                num_windows * window_size <= MAX_CAPACITY_BITS as int,
                generators@.len() == w,
                forall|a: int|
                    0 <= a < w ==> (#[trigger] generators@[a])@.len() == window_size,
                forall|a: int, i: int|
                    0 <= a < w && 0 <= i < window_size ==> (
                    #[trigger] generators@[a]@[i]).well_formed(),
                forall|a: int, i: int|
                    0 <= a < w && 0 <= i < window_size ==> (
                    #[trigger] generators@[a]@[i]).in_subgroup(),
                forall|a: int, i: int|
                    0 <= a < w && 0 <= i < window_size ==> (
                    #[trigger] generators@[a]@[i]).value == derived_generator(
                        seed as int,
                        a * window_size + i,
                    ),
            decreases num_windows - w,
        {
            let mut row: Vec<GroupElement> = Vec::new();
            let mut i: usize = 0;
            while i < window_size
                invariant
                    i <= window_size,
                    w < num_windows,
                    1 <= window_size,
                    num_windows * window_size <= MAX_CAPACITY_BITS as int,
                    row@.len() == i,
                    forall|b: int| 0 <= b < i ==> (#[trigger] row@[b]).well_formed(),
                    forall|b: int| 0 <= b < i ==> (#[trigger] row@[b]).in_subgroup(),
                    forall|b: int|
                        0 <= b < i ==> (#[trigger] row@[b]).value == derived_generator(
                            seed as int,
                            w * window_size + b,
                        ),
                decreases window_size - i,
            {
                proof {
                    assert(w * window_size + i < num_windows * window_size) by (nonlinear_arith)
                        requires
                            0 <= w < num_windows,
                            0 <= i < window_size,
                    ;
                }
                let index: u64 = (w as u64) * (window_size as u64) + (i as u64);
                let g = derive_element(seed, index);
                row.push(g);
                i += 1;
            }
            generators.push(row);
            w += 1;
        }
        proof {
            assert(num_windows * window_size <= MAX_CAPACITY_BITS as int);
        }
        let base_index: u64 = (num_windows as u64) * (window_size as u64);
        let randomness_base = derive_element(seed, base_index);
        PedersenCommitment { num_windows, window_size, generators, randomness_base }
    }
}

impl PedersenCommitment {
    /// The native commitment on bit sequences: the windowed fold over the
    /// input bits, then the randomness fold.  Succeeds exactly when the
    /// input fits the scheme's capacity, and then returns the closed-form
    /// commitment value.
    pub fn commit_bits(&self, input_bits: &Vec<bool>, randomness_bits: &Vec<bool>) -> (r: Result<
        GroupElement,
        CommitmentError,
    >)
        requires
            self.well_formed(),
        ensures
            match r {
                Ok(c) => {
                    &&& input_bits@.len() <= self.spec_capacity_bits()
                    &&& c.well_formed()
                    &&& c.value == self.spec_commitment(input_bits@, randomness_bits@)
                },
                Err(e) => {
                    &&& input_bits@.len() > self.spec_capacity_bits()
                    &&& e == CommitmentError::IncorrectInputLength(input_bits@.len() as usize)
                },
            },
    {
        let cap: u64 = self.capacity_in_bits();
        if (input_bits.len() as u64) > cap {
            return Err(CommitmentError::IncorrectInputLength(input_bits.len()));
        }
        let ghost gens = self.generator_values();
        let ghost bits = input_bits@;
        let ghost ws = self.window_size as int;
        let n_bits: usize = input_bits.len();
        let mut acc = GroupElement::zero();
        let mut j: usize = 0;
        while j < n_bits
            invariant
                j <= n_bits,
                n_bits == input_bits@.len(),
                n_bits <= self.spec_capacity_bits(),
                self.well_formed(),
                acc.well_formed(),
                gens == self.generator_values(),
                bits == input_bits@,
                ws == self.window_size as int,
                window_fold(0, gens, ws, bits, 0) == window_fold(acc.value as int, gens, ws, bits, j as int),
            decreases n_bits - j,
        {
            let ghost acc_before = acc.value as int;
            if input_bits[j] {
                proof {
                    assert((j as int) / ws < self.num_windows && (j as int) % ws < ws && 0 <= (
                    j as int) % ws && 0 <= (j as int) / ws) by (nonlinear_arith)
                        requires
                            0 <= j < n_bits,
                            1 <= ws,
                            n_bits <= self.num_windows * ws,
                            self.spec_capacity_bits() == self.num_windows * ws,
                    ;
                }
                let w: usize = j / self.window_size;
                let i: usize = j % self.window_size;
                let g: GroupElement = self.generators[w][i];
                proof {
                    assert(gens[w as int][i as int] == g.value as int);
                }
                acc = acc.add(&g);
            }
            proof {
                assert(window_fold(acc_before, gens, ws, bits, j as int) == window_fold(
                    acc.value as int,
                    gens,
                    ws,
                    bits,
                    j as int + 1,
                ));
            }
            j += 1;
        }
        proof {
            assert(window_fold(acc.value as int, gens, ws, bits, n_bits as int)
                == acc.value as int);
        }
        let ghost windowed = acc.value as int;
        let ghost rbits = randomness_bits@;
        let ghost base0 = self.randomness_base.value as int;
        let mut base_power: GroupElement = self.randomness_base;
        let n_rand: usize = randomness_bits.len();
        let mut k: usize = 0;
        while k < n_rand
            invariant
                k <= n_rand,
                n_rand == randomness_bits@.len(),
                rbits == randomness_bits@,
                acc.well_formed(),
                base_power.well_formed(),
                randomness_fold(windowed, base0, rbits, 0) == randomness_fold(
                    acc.value as int,
                    base_power.value as int,
                    rbits,
                    k as int,
                ),
            decreases n_rand - k,
        {
            let ghost acc_before = acc.value as int;
            let ghost base_before = base_power.value as int;
            if randomness_bits[k] {
                acc = acc.add(&base_power);
            }
            base_power = base_power.double();
            proof {
                assert(randomness_fold(acc_before, base_before, rbits, k as int)
                    == randomness_fold(acc.value as int, base_power.value as int, rbits, k as int + 1));
            }
            k += 1;
        }
        proof {
            assert(randomness_fold(acc.value as int, base_power.value as int, rbits, n_rand as int)
                == acc.value as int);
            lemma_randomness_fold_closed(windowed, base0, rbits, 0);
        }
        Ok(acc)
    }

    /// The native commitment on byte sequences: both the input and the
    /// randomness are read through the scheme's one bit-serialization
    /// convention, little-endian within each byte.
    pub fn commit(&self, input: &Vec<u8>, randomness: &Vec<u8>) -> (r: Result<
        GroupElement,
        CommitmentError,
    >)
        requires
            self.well_formed(),
            input@.len() * 8 <= usize::MAX,
            randomness@.len() * 8 <= usize::MAX,
        ensures
            match r {
                Ok(c) => {
                    &&& 8 * input@.len() <= self.spec_capacity_bits()
                    &&& c.well_formed()
                    &&& c.value == self.spec_commitment(
                        bits_of_bytes(input@),
                        bits_of_bytes(randomness@),
                    )
                },
                Err(e) => {
                    &&& 8 * input@.len() > self.spec_capacity_bits()
                    &&& e == CommitmentError::IncorrectInputLength((8 * input@.len()) as usize)
                },
            },
    {
        let input_bits = bytes_to_bits_le(input);
        let randomness_bits = bytes_to_bits_le(randomness);
        self.commit_bits(&input_bits, &randomness_bits)
    }
}

/// Expands a byte sequence into its bits, least significant bit of each
/// byte first: the executable form of `bits_of_bytes`.
pub fn bytes_to_bits_le(bytes: &Vec<u8>) -> (r: Vec<bool>)
    requires
        bytes@.len() * 8 <= usize::MAX,
    ensures
        r@ == bits_of_bytes(bytes@),
{
    let mut r: Vec<bool> = Vec::new();
    let n: usize = bytes.len();
    let mut b: usize = 0;
    while b < n
        invariant
            b <= n,
            n == bytes@.len(),
            n * 8 <= usize::MAX,
            r@.len() == 8 * b,
            forall|i: int|
                0 <= i < r@.len() ==> r@[i] == bits_of_byte(bytes@[i / 8])[i % 8],
        decreases n - b,
    {
        let byte: u8 = bytes[b];
        let mut k: usize = 0;
        while k < 8
            invariant
                k <= 8,
                b < n,
                n == bytes@.len(),
                n * 8 <= usize::MAX,
                byte == bytes@[b as int],
                r@.len() == 8 * b + k,
                forall|i: int|
                    0 <= i < r@.len() ==> r@[i] == bits_of_byte(bytes@[i / 8])[i % 8],
            decreases 8 - k,
        {
            let bit: bool = (byte >> (k as u8)) & 1 == 1;
            proof {
                assert(bit == bits_of_byte(byte)[k as int]);
                vstd::arithmetic::div_mod::lemma_fundamental_div_mod_converse(
                    8 * (b as int) + (k as int),
                    8,
                    b as int,
                    k as int,
                );
            }
            r.push(bit);
            k += 1;
        }
        b += 1;
    }
    proof {
        assert(r@ =~= bits_of_bytes(bytes@));
    }
    r
}

/// Native parameters of the compressed scheme: the Pedersen parameters,
/// with the output reduced to the point's x-coordinate.
#[derive(Clone, Debug)]
pub struct PedersenCompressedCommitment {
    pub pedersen: PedersenCommitment,
}

impl PedersenCompressedCommitment {
    pub open spec fn well_formed(self) -> bool {
        self.pedersen.well_formed()
    }

    pub open spec fn in_subgroup(self) -> bool {
        self.pedersen.in_subgroup()
    }

    /// The compressed commitment the parameters assign to the given bits:
    /// the x-coordinate of the uncompressed one.
    pub open spec fn spec_commitment(self, input_bits: Seq<bool>, randomness_bits: Seq<bool>) -> int {
        crate::group::x_coordinate_of(self.pedersen.spec_commitment(input_bits, randomness_bits))
    }

    /// Deterministic parameter generation, shared with the uncompressed
    /// scheme.
    pub fn setup(num_windows: usize, window_size: usize, seed: u64) -> (r:
        PedersenCompressedCommitment)
        requires
            1 <= num_windows,
            1 <= window_size,
            num_windows * window_size <= MAX_CAPACITY_BITS as int,
        ensures
            r.well_formed(),
            r.in_subgroup(),
            r.pedersen.num_windows == num_windows,
            r.pedersen.window_size == window_size,
            forall|w: int, i: int|
                0 <= w < num_windows && 0 <= i < window_size ==> (
                #[trigger] r.pedersen.generators@[w]@[i]).value == derived_generator(
                    seed as int,
                    w * window_size + i,
                ),
            r.pedersen.randomness_base.value == derived_generator(
                seed as int,
                num_windows * window_size,
            ),
    {
        PedersenCompressedCommitment {
            pedersen: PedersenCommitment::setup(num_windows, window_size, seed),
        }
    }

    /// The underlying Pedersen parameters the compressed scheme delegates
    /// to.
    pub fn parameters(&self) -> (r: &PedersenCommitment)
        ensures
            r == self.pedersen,
    {
        &self.pedersen
    }

    /// The native compressed commitment on byte sequences.
    pub fn commit(&self, input: &Vec<u8>, randomness: &Vec<u8>) -> (r: Result<u64, CommitmentError>)
        requires
            self.well_formed(),
            input@.len() * 8 <= usize::MAX,
            randomness@.len() * 8 <= usize::MAX,
        ensures
            match r {
                Ok(x) => {
                    &&& 8 * input@.len() <= self.pedersen.spec_capacity_bits()
                    &&& x == self.spec_commitment(bits_of_bytes(input@), bits_of_bytes(randomness@))
                },
                Err(e) => {
                    &&& 8 * input@.len() > self.pedersen.spec_capacity_bits()
                    &&& e == CommitmentError::IncorrectInputLength((8 * input@.len()) as usize)
                },
            },
    {
        match self.pedersen.commit(input, randomness) {
            Ok(point) => Ok(point.to_x_coordinate()),
            Err(e) => Err(e),
        }
    }
}

/// Derives one subgroup element from the seed and a slot index.
fn derive_element(seed: u64, index: u64) -> (r: GroupElement)
    requires
        index <= MAX_CAPACITY_BITS,
    ensures
        r.value == derived_generator(seed as int, index as int),
        r.well_formed(),
        r.in_subgroup(),
{
    let s0: u64 = seed % SUBGROUP_ORDER;
    let t: u64 = (s0 + index) % SUBGROUP_ORDER;
    proof {
        lemma_mod_multiples_basic(t as int, 2);
    }
    GroupElement { value: 2 * t }
}

} // verus!
