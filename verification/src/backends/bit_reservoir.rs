//! Bookkeeping of a predictor that reads single bits: what it has seen, and where the weights stand
//! that a prediction uses.

use vstd::prelude::*;

verus! {

/// Places of a bit in a byte.
pub const PHASES: usize = 8;

/// Groups of features: windows of bits first, windows of bytes after them.
pub const TOTAL_SPARSE_FEATURES: usize = 21;

/// Number of windows of bits.
pub const BIT_WINDOW_COUNT: usize = 14;

// ---------------------------------------------------------------------------------------
// Bits as numbers
// ---------------------------------------------------------------------------------------

/// A bit as a number.
pub open spec fn bit_word(bit: bool) -> u64 {
    if bit {
        1
    } else {
        0
    }
}

/// The last 64 bits as a number, the last one lowest.
pub open spec fn word_of(seen: Seq<bool>) -> u64
    decreases seen.len(),
{
    if seen.len() == 0 {
        0
    } else {
        (word_of(seen.drop_last()) << 1u64) | bit_word(seen.last())
    }
}

/// Bits of whole bytes.
pub open spec fn bits_of_whole_bytes(seen: Seq<bool>) -> Seq<bool> {
    seen.take(seen.len() - seen.len() % 8)
}

/// Bits of the byte that is not whole yet.
pub open spec fn part_of_byte(seen: Seq<bool>) -> Seq<bool> {
    seen.skip(seen.len() - seen.len() % 8)
}

/// The lowest `n` bits of a number, all of them for 64 and above.
pub open spec fn low_bits(x: u64, n: int) -> u64 {
    if n >= 64 {
        x
    } else if n <= 0 {
        0
    } else {
        x & (((1u64 << n as u64) - 1) as u64)
    }
}

fn lowest(x: u64, n: usize) -> (low: u64)
    ensures
        low == low_bits(x, n as int),
{
    if n >= 64 {
        x
    } else if n == 0 {
        0
    } else {
        let m: u64 = n as u64;
        proof {
            assert(m < 64 ==> 1u64 << m >= 1) by (bit_vector);
        }
        x & ((1u64 << m) - 1)
    }
}

proof fn lemma_low_step(h: u64, b: u64, n: int)
    requires
        b <= 1,
        1 <= n,
    ensures
        low_bits((h << 1u64) | b, n) == (low_bits(h, n - 1) << 1u64) | b,
{
    if n >= 65 {
    } else if n == 64 {
        assert((h << 1u64) == ((h & (((1u64 << 63u64) - 1) as u64)) << 1u64)) by (bit_vector);
    } else if n == 1 {
        assert(b <= 1 ==> (((h << 1u64) | b) & (((1u64 << 1u64) - 1) as u64)) == ((0u64 << 1u64)
            | b)) by (bit_vector);
    } else {
        let m = n as u64;
        let k = (n - 1) as u64;
        assert(b <= 1 && 2 <= m < 64 && k == m - 1 ==> (((h << 1u64) | b) & (((1u64 << m)
            - 1) as u64)) == (((h & (((1u64 << k) - 1) as u64)) << 1u64) | b)) by (bit_vector);
    }
}

/// The lowest bits of the number depend on as many last bits alone.
pub proof fn law_low_bits_of_window(a: Seq<bool>, b: Seq<bool>, n: nat)
    requires
        n <= a.len(),
        n <= b.len(),
        a.skip(a.len() - n) == b.skip(b.len() - n),
    ensures
        low_bits(word_of(a), n as int) == low_bits(word_of(b), n as int),
    decreases n,
{
    if n > 0 {
        let sa = a.skip(a.len() - n);
        let sb = b.skip(b.len() - n);
        assert(sa.last() == a.last());
        assert(sb.last() == b.last());
        let da = a.drop_last();
        let db = b.drop_last();
        assert(da.skip(da.len() - (n - 1)) =~= sa.drop_last());
        assert(db.skip(db.len() - (n - 1)) =~= sb.drop_last());
        law_low_bits_of_window(da, db, (n - 1) as nat);
        lemma_low_step(word_of(da), bit_word(a.last()), n as int);
        lemma_low_step(word_of(db), bit_word(b.last()), n as int);
    }
}

// ---------------------------------------------------------------------------------------
// Hashes
// ---------------------------------------------------------------------------------------

/// A number whose bits are spread.
pub open spec fn mixed(x: u64) -> u64 {
    let a = (x ^ (x >> 30u64)).wrapping_mul(0xBF58_476D_1CE4_E5B9);
    let b = (a ^ (a >> 27u64)).wrapping_mul(0x94D0_49BB_1331_11EB);
    b ^ (b >> 31u64)
}

/// Spreads the bits of a number.
pub fn mix64(x: u64) -> (y: u64)
    ensures
        y == mixed(x),
{
    let a: u64 = (x ^ (x >> 30u64)).wrapping_mul(0xBF58_476D_1CE4_E5B9);
    let b: u64 = (a ^ (a >> 27u64)).wrapping_mul(0x94D0_49BB_1331_11EB);
    b ^ (b >> 31u64)
}

/// A number turned left.
pub open spec fn turned(x: u64, by: u64) -> u64 {
    if by == 0 {
        x
    } else {
        (x << by) | (x >> ((64 - by) as u64))
    }
}

fn turn(x: u64, by: u64) -> (y: u64)
    requires
        by < 64,
    ensures
        y == turned(x, by),
{
    if by == 0 {
        x
    } else {
        (x << by) | (x >> (64 - by))
    }
}

/// Numbers that look random.
#[derive(Clone, Copy, Debug, PartialEq, Eq, Structural)]
pub struct SplitMix64 {
    pub state: u64,
}

/// Distance between two states.
pub open spec fn golden() -> u64 {
    0x9E37_79B9_7F4A_7C15
}

/// State after `n` numbers.
pub open spec fn rng_state(seed: u64, n: nat) -> u64
    decreases n,
{
    if n == 0 {
        seed
    } else {
        rng_state(seed, (n - 1) as nat).wrapping_add(golden())
    }
}

/// Number at place `n`.
pub open spec fn drawn(seed: u64, n: nat) -> u64 {
    mixed(rng_state(seed, n + 1))
}

impl SplitMix64 {
    /// Numbers that follow from a seed.
    pub fn new(seed: u64) -> (rng: Self)
        ensures
            rng.state == rng_state(seed, 0),
    {
        SplitMix64 { state: seed }
    }

    /// The next number.
    pub fn next_u64(&mut self) -> (x: u64)
        ensures
            final(self).state == old(self).state.wrapping_add(golden()),
            x == mixed(final(self).state),
    {
        self.state = self.state.wrapping_add(0x9E37_79B9_7F4A_7C15);
        mix64(self.state)
    }

    /// The next number, below `upper`; nothing is drawn below zero.
    pub fn next_usize(&mut self, upper: usize) -> (x: usize)
        ensures
            if upper == 0 {
                x == 0 && final(self).state == old(self).state
            } else {
                final(self).state == old(self).state.wrapping_add(golden()) && x as int == mixed(
                    final(self).state,
                ) as int % upper as int
            },
    {
        if upper == 0 {
            0
        } else {
            (self.next_u64() % upper as u64) as usize
        }
    }
}

/// Where the inputs of a unit come from, and the random parts of its weights: 24 bits each.
pub struct ReservoirDraws {
    pub source: Vec<usize>,
    pub recurrent: Vec<u32>,
    pub input: Vec<u32>,
    pub jitter: Vec<u32>,
    pub phase: Vec<u32>,
}

/// 24 random bits.
pub open spec fn part_drawn(seed: u64, n: nat) -> u64 {
    drawn(seed, n) >> 40u64
}

/// Unit that another one reads.
pub open spec fn unit_read(seed: u64, hidden: nat, i: nat) -> int {
    let upper = if hidden <= 1 {
        1int
    } else {
        hidden - 1
    };
    (i + 1 + (drawn(seed, 4 * i) as int % upper) % hidden as int) % hidden as int
}

/// The random parts of a predictor with `hidden` units.
pub open spec fn draws_ok(d: ReservoirDraws, seed: u64, hidden: nat) -> bool {
    &&& d.source@.len() == hidden
    &&& d.recurrent@.len() == hidden
    &&& d.input@.len() == hidden
    &&& d.jitter@.len() == hidden
    &&& d.phase@.len() == 8 * hidden
    &&& forall|i: nat| i < hidden ==> #[trigger] d.source@[i as int] == unit_read(seed, hidden, i)
    &&& forall|i: nat|
        i < hidden ==> #[trigger] d.recurrent@[i as int] == part_drawn(seed, 4 * i + 1)
    &&& forall|i: nat| i < hidden ==> #[trigger] d.input@[i as int] == part_drawn(seed, 4 * i + 2)
    &&& forall|i: nat| i < hidden ==> #[trigger] d.jitter@[i as int] == part_drawn(seed, 4 * i + 3)
    &&& forall|j: nat|
        j < 8 * hidden ==> #[trigger] d.phase@[j as int] == part_drawn(seed, 4 * hidden + j)
}

fn draw_part(rng: &mut SplitMix64) -> (x: u32)
    ensures
        final(rng).state == old(rng).state.wrapping_add(golden()),
        x == mixed(final(rng).state) >> 40u64,
{
    let y: u64 = rng.next_u64();
    proof {
        assert(y >> 40u64 < 0x100_0000) by (bit_vector);
    }
    (y >> 40u64) as u32
}

/// Draws the random parts of a predictor.
pub fn draw_reservoir(seed: u64, hidden: usize) -> (draws: ReservoirDraws)
    requires
        1 <= hidden,
        8 * hidden <= usize::MAX,
    ensures
        draws_ok(draws, seed, hidden as nat),
{
    let mut rng = SplitMix64::new(seed);
    let mut source: Vec<usize> = Vec::new();
    let mut recurrent: Vec<u32> = Vec::new();
    let mut input: Vec<u32> = Vec::new();
    let mut jitter: Vec<u32> = Vec::new();
    let mut phase: Vec<u32> = Vec::new();
    let upper: usize = if hidden <= 1 {
        1
    } else {
        hidden - 1
    };
    let mut i: usize = 0;
    while i < hidden
        invariant
            i <= hidden,
            1 <= hidden,
            8 * hidden <= usize::MAX,
            upper == (if hidden <= 1 {
                1int
            } else {
                hidden - 1
            }),
            rng.state == rng_state(seed, 4 * i as nat),
            source@.len() == i,
            recurrent@.len() == i,
            input@.len() == i,
            jitter@.len() == i,
            forall|k: nat| k < i ==> #[trigger] source@[k as int] == unit_read(seed, hidden as nat, k),
            forall|k: nat| k < i ==> #[trigger] recurrent@[k as int] == part_drawn(seed, 4 * k + 1),
            forall|k: nat| k < i ==> #[trigger] input@[k as int] == part_drawn(seed, 4 * k + 2),
            forall|k: nat| k < i ==> #[trigger] jitter@[k as int] == part_drawn(seed, 4 * k + 3),
        decreases hidden - i,
    {
        let ghost n: nat = 4 * i as nat;
        proof {
            assert(rng_state(seed, n + 1) == rng_state(seed, n).wrapping_add(golden()));
            assert(rng_state(seed, n + 2) == rng_state(seed, n + 1).wrapping_add(golden()));
            assert(rng_state(seed, n + 3) == rng_state(seed, n + 2).wrapping_add(golden()));
            assert(rng_state(seed, n + 4) == rng_state(seed, n + 3).wrapping_add(golden()));
        }
        let offset: usize = rng.next_usize(upper) % hidden;
        source.push((i + 1 + offset) % hidden);
        recurrent.push(draw_part(&mut rng));
        input.push(draw_part(&mut rng));
        jitter.push(draw_part(&mut rng));
        i += 1;
    }
    let mut j: usize = 0;
    let total: usize = 8 * hidden;
    while j < total
        invariant
            j <= total,
            rng.state == rng_state(seed, (4 * hidden + j) as nat),
            phase@.len() == j,
            forall|k: nat|
                k < j ==> #[trigger] phase@[k as int] == part_drawn(seed, 4 * hidden as nat + k),
        decreases total - j,
    {
        proof {
            let n: nat = (4 * hidden + j) as nat;
            assert(rng_state(seed, n + 1) == rng_state(seed, n).wrapping_add(golden()));
        }
        phase.push(draw_part(&mut rng));
        j += 1;
    }
    ReservoirDraws { source, recurrent, input, jitter, phase }
}

// ---------------------------------------------------------------------------------------
// What was seen
// ---------------------------------------------------------------------------------------

/// Bits that were seen, as far as predictions look back.
pub struct BitHistory {
    ring: Vec<bool>,
    ring_pos: usize,
    ring_len: usize,
    phase: usize,
    history_bits: u64,
    history_bit_len: usize,
    byte_history: u64,
    byte_history_len: usize,
    partial_byte: u8,
    partial_bits: usize,
    all: Ghost<Seq<bool>>,
}

impl BitHistory {
    /// Bits that were seen.
    pub closed spec fn seen(&self) -> Seq<bool> {
        self.all@
    }

    /// How many bits are kept one by one.
    pub closed spec fn delay(&self) -> nat {
        self.ring@.len()
    }

    /// All counters agree with what was seen.
    pub closed spec fn wf(&self) -> bool {
        let s = self.all@;
        let d = self.ring@.len();
        &&& 1 <= d
        &&& self.ring_len == if s.len() < d {
            s.len()
        } else {
            d
        }
        &&& self.ring_pos < d
        &&& self.ring_pos == s.len() % d
        &&& forall|age: int|
            0 <= age < self.ring_len ==> self.ring@[#[trigger] ring_place(
                self.ring_pos as int,
                age,
                d as int,
            )] == s[s.len() - 1 - age]
        &&& self.phase == s.len() % 8
        &&& self.history_bits == word_of(s)
        &&& self.history_bit_len == if s.len() < 64 {
            s.len()
        } else {
            64
        }
        &&& self.byte_history == word_of(bits_of_whole_bytes(s))
        &&& self.byte_history_len == if s.len() / 8 < 8 {
            s.len() / 8
        } else {
            8
        }
        &&& self.partial_bits == s.len() % 8
        &&& self.partial_byte as u64 == word_of(part_of_byte(s))
        &&& (self.partial_byte as u64) < (1u64 << self.partial_bits as u64)
        &&& self.history_bits == (self.byte_history << self.partial_bits as u64)
            | self.partial_byte as u64
    }
}

/// Place of a bit that was seen `age` bits before the last one.
pub open spec fn ring_place(pos: int, age: int, d: int) -> int {
    if pos >= age + 1 {
        pos - age - 1
    } else {
        pos - age - 1 + d
    }
}

proof fn lemma_part(h: u64, p: u64, k: u64, b: u64)
    requires
        k < 8,
        p < 1u64 << k,
        b <= 1,
    ensures
        (((h << k) | p) << 1u64) | b == (h << ((k + 1) as u64)) | ((p << 1u64) | b),
        (p << 1u64) | b < 1u64 << ((k + 1) as u64),
        p < 128 ==> (p << 1u64) | b < 256,
        p < 128,
{
    let k1 = (k + 1) as u64;
    assert(k < 8 && k1 == k + 1 && p < 1u64 << k && b <= 1 ==> {
        &&& ((((h << k) | p) << 1u64) | b) == ((h << k1) | ((p << 1u64) | b))
        &&& ((p << 1u64) | b) < 1u64 << k1
        &&& p < 128
        &&& ((p << 1u64) | b) < 256
    }) by (bit_vector);
}

impl BitHistory {
    /// Nothing seen yet; `delay_bits` bits are kept one by one.
    pub fn new(delay_bits: usize) -> (history: Self)
        requires
            1 <= delay_bits,
        ensures
            history.wf(),
            history.seen() == Seq::<bool>::empty(),
            history.delay() == delay_bits,
    {
        let mut ring: Vec<bool> = Vec::new();
        let mut i: usize = 0;
        while i < delay_bits
            invariant
                i <= delay_bits,
                ring@.len() == i,
            decreases delay_bits - i,
        {
            ring.push(false);
            i += 1;
        }
        let ghost none = Seq::<bool>::empty();
        proof {
            assert(bits_of_whole_bytes(none) =~= none);
            assert(part_of_byte(none) =~= none);
            assert(0u64 << 0u64 | 0u64 == 0u64) by (bit_vector);
            assert(0u64 < 1u64 << 0u64) by (bit_vector);
        }
        BitHistory {
            ring,
            ring_pos: 0,
            ring_len: 0,
            phase: 0,
            history_bits: 0,
            history_bit_len: 0,
            byte_history: 0,
            byte_history_len: 0,
            partial_byte: 0,
            partial_bits: 0,
            all: Ghost(none),
        }
    }

    /// A second history of the same bits.
    pub fn duplicate(&self) -> (copy: Self)
        requires
            self.wf(),
        ensures
            copy.wf(),
            copy.seen() == self.seen(),
            copy.delay() == self.delay(),
    {
        let ring = self.ring.clone();
        proof {
            assert(ring@ =~= self.ring@);
        }
        BitHistory {
            ring,
            ring_pos: self.ring_pos,
            ring_len: self.ring_len,
            phase: self.phase,
            history_bits: self.history_bits,
            history_bit_len: self.history_bit_len,
            byte_history: self.byte_history,
            byte_history_len: self.byte_history_len,
            partial_byte: self.partial_byte,
            partial_bits: self.partial_bits,
            all: Ghost(self.all@),
        }
    }

    /// Place of the next bit in its byte.
    pub fn phase(&self) -> (phase: usize)
        requires
            self.wf(),
        ensures
            phase == self.seen().len() % 8,
            phase < PHASES,
    {
        self.phase
    }

    /// How many bits are kept one by one.
    pub fn recent_len(&self) -> (n: usize)
        requires
            self.wf(),
        ensures
            n == if self.seen().len() < self.delay() {
                self.seen().len()
            } else {
                self.delay()
            },
    {
        self.ring_len
    }

    /// A bit that was seen `age` bits before the last one.
    pub fn recent(&self, age: usize) -> (bit: bool)
        requires
            self.wf(),
            age < self.seen().len(),
            age < self.delay(),
        ensures
            bit == self.seen()[self.seen().len() - 1 - age],
    {
        let d: usize = self.ring.len();
        let ghost place = ring_place(self.ring_pos as int, age as int, d as int);
        let at: usize = if self.ring_pos > age {
            self.ring_pos - age - 1
        } else {
            d - 1 - (age - self.ring_pos)
        };
        proof {
            assert(at == place);
        }
        self.ring[at]
    }
}

proof fn lemma_next_place(n: nat, d: nat)
    requires
        1 <= d,
    ensures
        (n + 1) % d == if n % d + 1 == d {
            0
        } else {
            n % d + 1
        },
{
    vstd::arithmetic::div_mod::lemma_fundamental_div_mod(n as int, d as int);
    let q = n as int / d as int;
    let r = n as int % d as int;
    if r + 1 == d {
        assert(n + 1 == d * (q + 1) + 0) by (nonlinear_arith)
            requires
                n == d * q + r,
                r + 1 == d,
        ;
        vstd::arithmetic::div_mod::lemma_fundamental_div_mod_converse(
            (n + 1) as int,
            d as int,
            q + 1,
            0,
        );
    } else {
        assert(n + 1 == q * d + (r + 1)) by (nonlinear_arith)
            requires
                n == d * q + r,
        ;
        assert(0 <= r < d) by {
            vstd::arithmetic::div_mod::lemma_mod_bound(n as int, d as int);
        }
        vstd::arithmetic::div_mod::lemma_fundamental_div_mod_converse(
            (n + 1) as int,
            d as int,
            q,
            r + 1,
        );
    }
}

impl BitHistory {
    fn keep(&mut self, bit: bool)
        requires
            old(self).wf(),
        ensures
            final(self).ring@.len() == old(self).ring@.len(),
            final(self).ring_pos < final(self).ring@.len(),
            final(self).ring_pos == (old(self).all@.len() + 1) % old(self).ring@.len(),
            final(self).ring_len == if old(self).all@.len() + 1 < old(self).ring@.len() {
                old(self).all@.len() + 1
            } else {
                old(self).ring@.len()
            },
            forall|age: int|
                0 <= age < final(self).ring_len ==> final(self).ring@[#[trigger] ring_place(
                    final(self).ring_pos as int,
                    age,
                    final(self).ring@.len() as int,
                )] == old(self).all@.push(bit)[old(self).all@.len() - age],
            final(self).phase == old(self).phase,
            final(self).history_bits == old(self).history_bits,
            final(self).history_bit_len == old(self).history_bit_len,
            final(self).byte_history == old(self).byte_history,
            final(self).byte_history_len == old(self).byte_history_len,
            final(self).partial_byte == old(self).partial_byte,
            final(self).partial_bits == old(self).partial_bits,
            final(self).all == old(self).all,
    {
        let ghost s = self.all@;
        let ghost ring = self.ring@;
        let d: usize = self.ring.len();
        let ghost pos = self.ring_pos as int;
        proof {
            lemma_next_place(s.len(), d as nat);
        }
        let at: usize = self.ring_pos;
        self.ring.set(at, bit);
        self.ring_pos = if at + 1 == d {
            0
        } else {
            at + 1
        };
        if self.ring_len < d {
            self.ring_len += 1;
        }
        proof {
            assert forall|age: int| 0 <= age < self.ring_len implies self.ring@[
            #[trigger] ring_place(self.ring_pos as int, age, d as int)] == s.push(bit)[s.len()
                - age] by {
                let place = ring_place(self.ring_pos as int, age, d as int);
                if age == 0 {
                    assert(place == pos);
                } else {
                    assert(place == ring_place(pos, age - 1, d as int));
                    assert(place != pos);
                    assert(ring[place] == s[s.len() - 1 - (age - 1)]);
                }
            }
        }
    }

    /// Sees one more bit.
    pub fn advance(&mut self, bit: bool)
        requires
            old(self).wf(),
        ensures
            final(self).wf(),
            final(self).seen() == old(self).seen().push(bit),
            final(self).delay() == old(self).delay(),
    {
        let ghost s = self.all@;
        let ghost t = s.push(bit);
        let ghost h = self.byte_history;
        let ghost k = self.partial_bits as u64;
        let ghost p = self.partial_byte as u64;
        self.keep(bit);
        let b: u64 = if bit {
            1
        } else {
            0
        };
        proof {
            assert(t.drop_last() =~= s);
            lemma_part(h, p, k, b);
            if t.len() % 8 != 0 {
                assert(bits_of_whole_bytes(t) =~= bits_of_whole_bytes(s));
                assert(part_of_byte(t) =~= part_of_byte(s).push(bit));
                assert(part_of_byte(s).push(bit).drop_last() =~= part_of_byte(s));
            } else {
                assert(bits_of_whole_bytes(t) =~= t);
                assert(part_of_byte(t) =~= Seq::<bool>::empty());
            }
        }
        self.history_bits = (self.history_bits << 1u64) | b;
        if self.history_bit_len < 64 {
            self.history_bit_len += 1;
        }
        let part: u64 = ((self.partial_byte as u64) << 1u64) | b;
        self.partial_bits += 1;
        if self.partial_bits == 8 {
            self.byte_history = (self.byte_history << 8u64) | part;
            if self.byte_history_len < 8 {
                self.byte_history_len += 1;
            }
            self.partial_byte = 0;
            self.partial_bits = 0;
            proof {
                let now = self.byte_history;
                assert((now << 0u64) | 0u64 == now) by (bit_vector);
                assert(0u64 < 1u64 << 0u64) by (bit_vector);
            }
        } else {
            self.partial_byte = part as u8;
        }
        self.phase = if self.phase == 7 {
            0
        } else {
            self.phase + 1
        };
        self.all = Ghost(t);
    }
}

// ---------------------------------------------------------------------------------------
// Features
// ---------------------------------------------------------------------------------------

/// How far a group looks back: in bits for the first fourteen, in bytes for the rest.
pub open spec fn group_window(group: int) -> int {
    if group < 8 {
        group + 1
    } else if group == 8 {
        12
    } else if group == 9 {
        16
    } else if group == 10 {
        24
    } else if group == 11 {
        32
    } else if group == 12 {
        48
    } else if group == 13 {
        64
    } else if group < 20 {
        group - 13
    } else {
        8
    }
}

fn window(group: usize) -> (width: usize)
    requires
        group < TOTAL_SPARSE_FEATURES,
    ensures
        width == group_window(group as int),
        width <= 64,
        group >= BIT_WINDOW_COUNT ==> width <= 8,
{
    if group < 8 {
        group + 1
    } else if group == 8 {
        12
    } else if group == 9 {
        16
    } else if group == 10 {
        24
    } else if group == 11 {
        32
    } else if group == 12 {
        48
    } else if group == 13 {
        64
    } else if group < 20 {
        group - 13
    } else {
        8
    }
}

/// The smaller number.
pub open spec fn smaller_of(a: int, b: int) -> int {
    if a < b {
        a
    } else {
        b
    }
}

/// How many bits a group has to look at.
pub open spec fn feature_width(seen: Seq<bool>, group: int) -> int {
    if group < 14 {
        smaller_of(group_window(group), seen.len() as int)
    } else {
        8 * smaller_of(group_window(group), seen.len() as int / 8) + seen.len() % 8
    }
}

/// What a group looks at.
pub open spec fn feature_context(seen: Seq<bool>, group: int) -> u64 {
    if group < 14 {
        low_bits(word_of(seen), smaller_of(group_window(group), seen.len() as int))
    } else {
        low_bits(
            word_of(bits_of_whole_bytes(seen)),
            8 * smaller_of(group_window(group), seen.len() as int / 8),
        ) ^ turned((word_of(part_of_byte(seen)) << 3u64) | (seen.len() % 8) as u64, 41)
    }
}

/// Hash key of a group.
pub open spec fn feature_key(seen: Seq<bool>, group: int, seed: u64) -> u64 {
    feature_context(seen, group) ^ ((feature_width(seen, group) as u64) << 48u64) ^ (((seen.len()
        % 8) as u64) << 56u64) ^ (group as u64).wrapping_mul(0x9E37_79B9_7F4A_7C15) ^ turned(
        seed,
        group as u64,
    )
}

/// Place of a group's weight, where each group has `mask + 1` weights.
pub open spec fn feature_place(seen: Seq<bool>, group: int, mask: u64, seed: u64) -> int {
    group * (mask + 1) + (mixed(feature_key(seen, group, seed)) & mask)
}

proof fn lemma_word_bit(seen: Seq<bool>, j: u64)
    requires
        j < 64,
        j < seen.len(),
    ensures
        (word_of(seen) >> j) & 1 == bit_word(seen[seen.len() - 1 - j]),
    decreases seen.len(),
{
    let w = word_of(seen.drop_last());
    let b = bit_word(seen.last());
    if j == 0 {
        assert(b <= 1 ==> (((w << 1u64) | b) >> 0u64) & 1 == b) by (bit_vector);
    } else {
        let k = (j - 1) as u64;
        lemma_word_bit(seen.drop_last(), k);
        assert(b <= 1 && k < 63 ==> (((w << 1u64) | b) >> ((k + 1) as u64)) & 1 == (w >> k) & 1)
            by (bit_vector);
        assert(seen.drop_last()[seen.len() - 2 - k] == seen[seen.len() - 1 - j]);
    }
}

/// Each of the last bits tells: where two strings of bits differ in one of their last `n` bits, those
/// bits as numbers differ.
pub proof fn law_low_bits_tell(a: Seq<bool>, b: Seq<bool>, n: int, j: int)
    requires
        0 <= j < n <= 64,
        n <= a.len(),
        n <= b.len(),
        a[a.len() - 1 - j] != b[b.len() - 1 - j],
    ensures
        low_bits(word_of(a), n) != low_bits(word_of(b), n),
{
    let x = word_of(a);
    let y = word_of(b);
    let k = j as u64;
    lemma_word_bit(a, k);
    lemma_word_bit(b, k);
    if n < 64 {
        let m = n as u64;
        assert(m < 64 && k < m && (x >> k) & 1 != (y >> k) & 1 ==> x & (((1u64 << m) - 1) as u64) != y
            & (((1u64 << m) - 1) as u64)) by (bit_vector);
    }
}

/// A group tells each bit of its window: where two strings of as many bits differ in one of the bits
/// that a group looks at, its keys differ.
pub proof fn law_group_tells_its_window(a: Seq<bool>, b: Seq<bool>, group: int, seed: u64, j: int)
    requires
        0 <= group < 14,
        a.len() == b.len(),
        0 <= j < group_window(group),
        j < a.len(),
        a[a.len() - 1 - j] != b[b.len() - 1 - j],
    ensures
        feature_key(a, group, seed) != feature_key(b, group, seed),
{
    let n = smaller_of(group_window(group), a.len() as int);
    law_low_bits_tell(a, b, n, j);
    let x = feature_context(a, group);
    let y = feature_context(b, group);
    let p = (feature_width(a, group) as u64) << 48u64;
    let q = ((a.len() % 8) as u64) << 56u64;
    let r = (group as u64).wrapping_mul(0x9E37_79B9_7F4A_7C15);
    let t = turned(seed, group as u64);
    assert(x != y ==> x ^ p ^ q ^ r ^ t != y ^ p ^ q ^ r ^ t) by (bit_vector);
}

/// A group of whole bytes tells each bit of them, and each bit of the byte that is under way: where
/// two strings of as many bits differ in one of the bytes that a group looks at and in nothing behind
/// them, its keys differ, and so they do where they differ in the byte under way alone.
pub proof fn law_group_tells_its_bytes(a: Seq<bool>, b: Seq<bool>, group: int, seed: u64, j: int)
    requires
        14 <= group,
        1 <= group_window(group) <= 8,
        a.len() == b.len(),
        0 <= j,
    ensures
        part_of_byte(a) == part_of_byte(b) && j < 8 * group_window(group) && j < 8 * (a.len() / 8)
            && bits_of_whole_bytes(a)[8 * (a.len() / 8) - 1 - j] != bits_of_whole_bytes(b)[8 * (a.len() / 8)
            - 1 - j] ==> feature_key(a, group, seed) != feature_key(b, group, seed),
        bits_of_whole_bytes(a) == bits_of_whole_bytes(b) && j < a.len() % 8 && a[a.len() - 1 - j]
            != b[b.len() - 1 - j] ==> feature_key(a, group, seed) != feature_key(b, group, seed),
{
    let n = 8 * smaller_of(group_window(group), a.len() as int / 8);
    let whole_a = bits_of_whole_bytes(a);
    let whole_b = bits_of_whole_bytes(b);
    let p = (feature_width(a, group) as u64) << 48u64;
    let q = ((a.len() % 8) as u64) << 56u64;
    let r = (group as u64).wrapping_mul(0x9E37_79B9_7F4A_7C15);
    let t = turned(seed, group as u64);
    let x = feature_context(a, group);
    let y = feature_context(b, group);
    assert(x != y ==> x ^ p ^ q ^ r ^ t != y ^ p ^ q ^ r ^ t) by (bit_vector);
    let u = low_bits(word_of(whole_a), n);
    let v = low_bits(word_of(whole_b), n);
    let c = (word_of(part_of_byte(a)) << 3u64) | (a.len() % 8) as u64;
    let d = (word_of(part_of_byte(b)) << 3u64) | (b.len() % 8) as u64;
    let e = turned(c, 41);
    let f = turned(d, 41);
    assert(u != v ==> u ^ e != v ^ e) by (bit_vector);
    assert(e != f ==> u ^ e != u ^ f) by (bit_vector);
    if j < n && whole_a[8 * (a.len() / 8) - 1 - j] != whole_b[8 * (a.len() / 8) - 1 - j] {
        law_low_bits_tell(whole_a, whole_b, n, j);
    }
    if j < a.len() % 8 && a[a.len() - 1 - j] != b[b.len() - 1 - j] {
        let pa = part_of_byte(a);
        let pb = part_of_byte(b);
        assert(pa[pa.len() - 1 - j] == a[a.len() - 1 - j]);
        assert(pb[pb.len() - 1 - j] == b[b.len() - 1 - j]);
        lemma_word_bit(pa, j as u64);
        lemma_word_bit(pb, j as u64);
        let wa = word_of(pa);
        let wb = word_of(pb);
        let k = j as u64;
        let m = (a.len() % 8) as u64;
        assert(k < 8 && m < 8 && (wa >> k) & 1 != (wb >> k) & 1 ==> ((((wa << 3u64) | m) << 41u64) | (((wa
            << 3u64) | m) >> 23u64)) != ((((wb << 3u64) | m) << 41u64) | (((wb << 3u64) | m) >> 23u64)))
            by (bit_vector);
    }
}

/// A unit reads another one, where there is another.
pub proof fn law_units_read_others(seed: u64, hidden: nat, i: nat)
    requires
        i < hidden,
    ensures
        0 <= unit_read(seed, hidden, i) < hidden,
        hidden > 1 ==> unit_read(seed, hidden, i) != i,
{
    if hidden > 1 {
        let k = drawn(seed, 4 * i) as int % (hidden - 1);
        assert(0 <= k < hidden - 1);
        vstd::arithmetic::div_mod::lemma_small_mod(k as nat, hidden);
        let at = i + 1 + k;
        if at < hidden {
            vstd::arithmetic::div_mod::lemma_small_mod(at as nat, hidden);
        } else {
            vstd::arithmetic::div_mod::lemma_fundamental_div_mod_converse(
                at,
                hidden as int,
                1,
                at - hidden,
            );
        }
    }
}

/// A group's weight stands among the group's own weights.
pub proof fn law_feature_place_in_group(seen: Seq<bool>, group: int, mask: u64, seed: u64)
    requires
        0 <= group < TOTAL_SPARSE_FEATURES,
    ensures
        group * (mask + 1) <= feature_place(seen, group, mask, seed) < (group + 1) * (mask + 1),
        feature_place(seen, group, mask, seed) < TOTAL_SPARSE_FEATURES * (mask + 1),
{
    let x = mixed(feature_key(seen, group, seed));
    assert(x & mask <= mask) by (bit_vector);
    assert((group + 1) * (mask + 1) == group * (mask + 1) + (mask + 1)) by (nonlinear_arith);
    assert((group + 1) * (mask + 1) <= 21 * (mask + 1)) by (nonlinear_arith)
        requires
            group < 21,
    ;
}

/// A window of bits sees nothing in front of it, but for the number of bits at hand.
pub proof fn law_feature_sees_window(a: Seq<bool>, b: Seq<bool>, group: int, mask: u64, seed: u64)
    requires
        0 <= group < 14,
        group_window(group) <= a.len(),
        group_window(group) <= b.len(),
        a.len() % 8 == b.len() % 8,
        a.skip(a.len() - group_window(group)) == b.skip(b.len() - group_window(group)),
    ensures
        feature_place(a, group, mask, seed) == feature_place(b, group, mask, seed),
{
    law_low_bits_of_window(a, b, group_window(group) as nat);
}

impl BitHistory {
    /// Place of a group's weight, where each group has `mask + 1` weights.
    pub fn history_feature_index(&self, group: usize, mask: usize, seed: u64) -> (index: usize)
        requires
            self.wf(),
            group < TOTAL_SPARSE_FEATURES,
            TOTAL_SPARSE_FEATURES * (mask + 1) <= usize::MAX,
        ensures
            index == feature_place(self.seen(), group as int, mask as u64, seed),
            index < TOTAL_SPARSE_FEATURES * (mask + 1),
    {
        let ghost s = self.all@;
        let width: usize = window(group);
        let (context, effective): (u64, usize) = if group < BIT_WINDOW_COUNT {
            let used: usize = if width < self.history_bit_len {
                width
            } else {
                self.history_bit_len
            };
            (lowest(self.history_bits, used), used)
        } else {
            let used: usize = if width < self.byte_history_len {
                width
            } else {
                self.byte_history_len
            };
            let bits: usize = used * 8;
            let partial: u64 = ((self.partial_byte as u64) << 3u64) | self.partial_bits as u64;
            (lowest(self.byte_history, bits) ^ turn(partial, 41), bits + self.partial_bits)
        };
        let key: u64 = context ^ ((effective as u64) << 48u64) ^ ((self.phase as u64) << 56u64)
            ^ (group as u64).wrapping_mul(0x9E37_79B9_7F4A_7C15) ^ turn(seed, group as u64);
        let m: u64 = mask as u64;
        let x: u64 = mix64(key);
        proof {
            assert(feature_width(s, group as int) == effective);
            assert(feature_context(s, group as int) == context);
            assert(key == feature_key(s, group as int, seed));
            law_feature_place_in_group(s, group as int, m, seed);
            assert(x & m <= m) by (bit_vector);
            assert(group * (mask + 1) <= 20 * (mask + 1)) by (nonlinear_arith)
                requires
                    group <= 20,
            ;
        }
        group * (mask + 1) + (x & m) as usize
    }
}

// ---------------------------------------------------------------------------------------
// Weights that a branch has changed
// ---------------------------------------------------------------------------------------

/// Weights that differ from those of the model, as the bits of the numbers.
pub struct WeightOverlay {
    entries: Vec<(usize, u32)>,
}

/// First entry for a place, from `from` on.
pub open spec fn entry_for(entries: Seq<(usize, u32)>, index: usize, from: int) -> int
    decreases entries.len() - from,
{
    if from >= entries.len() {
        entries.len() as int
    } else if entries[from].0 == index {
        from
    } else {
        entry_for(entries, index, from + 1)
    }
}

proof fn lemma_entry_for(entries: Seq<(usize, u32)>, index: usize, from: int)
    requires
        0 <= from <= entries.len(),
    ensures
        from <= entry_for(entries, index, from) <= entries.len(),
        entry_for(entries, index, from) < entries.len() ==> entries[entry_for(
            entries,
            index,
            from,
        )].0 == index,
        forall|k: int|
            from <= k < entry_for(entries, index, from) ==> (#[trigger] entries[k]).0 != index,
    decreases entries.len() - from,
{
    if from < entries.len() && entries[from].0 != index {
        lemma_entry_for(entries, index, from + 1);
    }
}

impl View for WeightOverlay {
    type V = Map<usize, u32>;

    closed spec fn view(&self) -> Map<usize, u32> {
        Map::new(
            |index: usize| entry_for(self.entries@, index, 0) < self.entries@.len(),
            |index: usize| self.entries@[entry_for(self.entries@, index, 0)].1,
        )
    }
}

impl WeightOverlay {
    /// No place occurs twice.
    pub closed spec fn wf(&self) -> bool {
        forall|i: int, j: int|
            0 <= i < j < self.entries@.len() ==> (#[trigger] self.entries@[i]).0 != (
            #[trigger] self.entries@[j]).0
    }

    /// No changes.
    pub fn new() -> (overlay: Self)
        ensures
            overlay.wf(),
            overlay@ == Map::<usize, u32>::empty(),
    {
        let overlay = WeightOverlay { entries: Vec::new() };
        proof {
            assert(overlay@ =~= Map::<usize, u32>::empty());
        }
        overlay
    }

    fn find(&self, index: usize) -> (at: usize)
        ensures
            at == entry_for(self.entries@, index, 0),
            at <= self.entries@.len(),
    {
        let n: usize = self.entries.len();
        let mut i: usize = 0;
        while i < n
            invariant
                i <= n == self.entries@.len(),
                entry_for(self.entries@, index, 0) == entry_for(self.entries@, index, i as int),
            decreases n - i,
        {
            if self.entries[i].0 == index {
                return i;
            }
            i += 1;
        }
        n
    }

    /// The changed weight at a place.
    pub fn get(&self, index: usize) -> (weight: Option<u32>)
        ensures
            match weight {
                Some(w) => self@.contains_key(index) && self@[index] == w,
                None => !self@.contains_key(index),
            },
    {
        let at: usize = self.find(index);
        if at < self.entries.len() {
            Some(self.entries[at].1)
        } else {
            None
        }
    }

    /// Changes the weight at a place.
    pub fn set_history_weight(&mut self, index: usize, weight: u32)
        requires
            old(self).wf(),
        ensures
            final(self).wf(),
            final(self)@ == old(self)@.insert(index, weight),
    {
        let ghost before = self.entries@;
        let ghost view = self@;
        let at: usize = self.find(index);
        proof {
            lemma_entry_for(before, index, 0);
        }
        if at < self.entries.len() {
            self.entries.set(at, (index, weight));
        } else {
            self.entries.push((index, weight));
        }
        proof {
            let after = self.entries@;
            assert forall|x: usize|
                #![trigger entry_for(after, x, 0)]
                if x == index {
                    entry_for(after, x, 0) == at
                } else if entry_for(before, x, 0) < before.len() {
                    entry_for(after, x, 0) == entry_for(before, x, 0)
                } else {
                    entry_for(after, x, 0) == after.len()
                } by {
                lemma_entry_for(before, x, 0);
                lemma_entry_for(after, x, 0);
                let a = entry_for(after, x, 0);
                let b = entry_for(before, x, 0);
                if x == index {
                    if a < at {
                        assert(after[a].0 == before[a].0);
                    } else if a > at {
                        assert(after[at as int].0 == index);
                    }
                } else if b < before.len() {
                    assert(after[b].0 == before[b].0);
                    if a < b {
                        assert(after[a].0 == before[a].0);
                    }
                } else if a < after.len() {
                    if a < before.len() {
                        assert(after[a].0 == before[a].0);
                        assert(before[a].0 != x);
                    }
                }
            }
            assert(self@ =~= view.insert(index, weight)) by {
                assert forall|x: usize|
                    self@.contains_key(x) <==> view.insert(index, weight).contains_key(x) by {
                    let a = entry_for(after, x, 0);
                }
                assert forall|x: usize| #[trigger]
                    self@.contains_key(x) implies self@[x] == view.insert(index, weight)[x] by {
                    let a = entry_for(after, x, 0);
                    lemma_entry_for(before, x, 0);
                }
            }
        }
    }
}

} // verus!
