//! Rolling CRC32 and CRC64 checksums, table-driven and reflected.
//!
//! The specification is the published bit-level definition: per input byte,
//! xor the byte into the low bits of the state and run eight shift-and-xor
//! steps with the reflected polynomial. The implementations process a byte
//! with one table lookup and are proved equal to the bit-level definition.

use vstd::prelude::*;

verus! {

/// One bit-level step of the reflected CRC32: shift right and fold the
/// polynomial back in when a one bit falls out.
pub open spec fn crc32_step(c: u32) -> u32 {
    if c & 1 == 1 {
        (c >> 1) ^ 0xEDB8_8320u32
    } else {
        c >> 1
    }
}

/// `n` bit-level CRC32 steps.
pub open spec fn crc32_steps(c: u32, n: nat) -> u32
    decreases n,
{
    if n == 0 {
        c
    } else {
        crc32_step(crc32_steps(c, (n - 1) as nat))
    }
}

/// Feed one byte into a CRC32 state: xor it in, then eight bit steps.
pub open spec fn crc32_update(c: u32, b: u8) -> u32 {
    crc32_steps(c ^ (b as u32), 8)
}

/// Fold a byte sequence into a CRC32 state.
pub open spec fn crc32_acc(a: u32, s: Seq<u8>) -> u32
    decreases s.len(),
{
    if s.len() == 0 {
        a
    } else {
        crc32_acc(crc32_update(a, s[0]), s.drop_first())
    }
}

/// The CRC32 of a byte sequence: initial state and final mask both all-ones.
pub open spec fn crc32_of(s: Seq<u8>) -> u32 {
    crc32_acc(0xFFFF_FFFFu32, s) ^ 0xFFFF_FFFFu32
}

/// Eight bit steps treat the low byte and the high bytes independently:
/// the high bytes simply shift down, the low byte runs through the table.
proof fn lemma_crc32_steps_split(x: u32)
    ensures
        crc32_steps(x, 8) == crc32_steps(x & 0xFF, 8) ^ (x >> 8),
{
    assert(crc32_steps(x, 8) == crc32_steps(x & 0xFF, 8) ^ (x >> 8)) by (bit_vector);
}

/// Folding one more byte at the end equals one update after the fold.
proof fn lemma_crc32_acc_push(a: u32, s: Seq<u8>, b: u8)
    ensures
        crc32_acc(a, s.push(b)) == crc32_update(crc32_acc(a, s), b),
    decreases s.len(),
{
    if s.len() == 0 {
        assert(s.push(b)[0] == b);
        assert(s.push(b).drop_first() =~= Seq::<u8>::empty());
        assert(crc32_acc(a, s.push(b)) == crc32_acc(crc32_update(a, b), Seq::<u8>::empty()));
    } else {
        assert(s.push(b)[0] == s[0]);
        assert(s.push(b).drop_first() =~= s.drop_first().push(b));
        lemma_crc32_acc_push(crc32_update(a, s[0]), s.drop_first(), b);
        assert(crc32_acc(a, s.push(b)) == crc32_acc(
            crc32_update(a, s[0]),
            s.drop_first().push(b),
        ));
    }
}

/// One bit-level step of the reflected CRC64: the folding constant is the
/// bit-reversed form of the polynomial 0x42F0E1EBA9EA3693.
pub open spec fn crc64_step(c: u64) -> u64 {
    if c & 1 == 1 {
        (c >> 1) ^ 0xC96C_5795_D787_0F42u64
    } else {
        c >> 1
    }
}

/// `n` bit-level CRC64 steps.
pub open spec fn crc64_steps(c: u64, n: nat) -> u64
    decreases n,
{
    if n == 0 {
        c
    } else {
        crc64_step(crc64_steps(c, (n - 1) as nat))
    }
}

/// Feed one byte into a CRC64 state.
pub open spec fn crc64_update(c: u64, b: u8) -> u64 {
    crc64_steps(c ^ (b as u64), 8)
}

/// Fold a byte sequence into a CRC64 state.
pub open spec fn crc64_acc(a: u64, s: Seq<u8>) -> u64
    decreases s.len(),
{
    if s.len() == 0 {
        a
    } else {
        crc64_acc(crc64_update(a, s[0]), s.drop_first())
    }
}

/// The CRC64 of a byte sequence: initial state and final mask both all-ones.
pub open spec fn crc64_of(s: Seq<u8>) -> u64 {
    crc64_acc(0xFFFF_FFFF_FFFF_FFFFu64, s) ^ 0xFFFF_FFFF_FFFF_FFFFu64
}

/// One step on a value whose low bit comes only from `a`: the `h` part just
/// shifts down past the polynomial fold.
proof fn lemma_crc64_step_even(a: u64, h: u64)
    requires
        h & 1 == 0,
    ensures
        crc64_step(a ^ h) == crc64_step(a) ^ (h >> 1),
{
    assert(h & 1 == 0 ==> crc64_step(a ^ h) == crc64_step(a) ^ (h >> 1)) by (bit_vector);
}

/// `k` steps on `a ^ h` where the low `k` bits of `h` are zero: `h` only
/// shifts down, independently of the polynomial folds on `a`.
proof fn lemma_crc64_steps_shift(a: u64, h: u64, k: u64)
    requires
        k <= 8,
        h & (((1u64 << k) - 1) as u64) == 0,
    ensures
        crc64_steps(a ^ h, k as nat) == crc64_steps(a, k as nat) ^ (h >> k),
    decreases k,
{
    if k == 0 {
        assert(h >> 0u64 == h) by (bit_vector);
    } else {
        assert((k >= 1 && k <= 8 && h & (((1u64 << k) - 1) as u64) == 0) ==> {
            &&& h & (((1u64 << ((k - 1) as u64)) - 1) as u64) == 0
            &&& (h >> ((k - 1) as u64)) & 1 == 0
            &&& (h >> ((k - 1) as u64)) >> 1 == h >> k
        }) by (bit_vector);
        lemma_crc64_steps_shift(a, h, (k - 1) as u64);
        lemma_crc64_step_even(crc64_steps(a, (k - 1) as nat), h >> ((k - 1) as u64));
    }
}

proof fn lemma_crc64_steps_split(x: u64)
    ensures
        crc64_steps(x, 8) == crc64_steps(x & 0xFF, 8) ^ (x >> 8),
{
    let lo = x & 0xFF;
    let hi = x & 0xFFFF_FFFF_FFFF_FF00u64;
    assert((x & 0xFF) ^ (x & 0xFFFF_FFFF_FFFF_FF00u64) == x && (x & 0xFFFF_FFFF_FFFF_FF00u64) & ((
    (1u64 << 8u64) - 1) as u64) == 0 && (x & 0xFFFF_FFFF_FFFF_FF00u64) >> 8u64 == x >> 8u64)
        by (bit_vector);
    lemma_crc64_steps_shift(lo, hi, 8);
}

proof fn lemma_crc64_acc_push(a: u64, s: Seq<u8>, b: u8)
    ensures
        crc64_acc(a, s.push(b)) == crc64_update(crc64_acc(a, s), b),
    decreases s.len(),
{
    if s.len() == 0 {
        assert(s.push(b)[0] == b);
        assert(s.push(b).drop_first() =~= Seq::<u8>::empty());
        assert(crc64_acc(a, s.push(b)) == crc64_acc(crc64_update(a, b), Seq::<u8>::empty()));
    } else {
        assert(s.push(b)[0] == s[0]);
        assert(s.push(b).drop_first() =~= s.drop_first().push(b));
        lemma_crc64_acc_push(crc64_update(a, s[0]), s.drop_first(), b);
        assert(crc64_acc(a, s.push(b)) == crc64_acc(
            crc64_update(a, s[0]),
            s.drop_first().push(b),
        ));
    }
}

/// The 256-entry lookup table: entry `i` holds eight bit steps applied to `i`.
fn build_crc32_table() -> (t: Vec<u32>)
    ensures
        t.len() == 256,
        forall|i: int| 0 <= i < 256 ==> t[i] == crc32_steps(i as u32, 8),
{
    let mut t: Vec<u32> = Vec::new();
    let mut i: usize = 0;
    while i < 256
        invariant
            i <= 256,
            t.len() == i,
            forall|j: int| 0 <= j < i ==> t[j] == crc32_steps(j as u32, 8),
        decreases 256 - i,
    {
        let mut crc: u32 = i as u32;
        let mut j: usize = 0;
        while j < 8
            invariant
                j <= 8,
                i < 256,
                crc == crc32_steps(i as u32, j as nat),
            decreases 8 - j,
        {
            if crc & 1 == 1 {
                crc = (crc >> 1) ^ 0xEDB8_8320;
            } else {
                crc = crc >> 1;
            }
            j = j + 1;
        }
        t.push(crc);
        i = i + 1;
    }
    t
}

fn build_crc64_table() -> (t: Vec<u64>)
    ensures
        t.len() == 256,
        forall|i: int| 0 <= i < 256 ==> t[i] == crc64_steps(i as u64, 8),
{
    let mut t: Vec<u64> = Vec::new();
    let mut i: usize = 0;
    while i < 256
        invariant
            i <= 256,
            t.len() == i,
            forall|j: int| 0 <= j < i ==> t[j] == crc64_steps(j as u64, 8),
        decreases 256 - i,
    {
        let mut crc: u64 = i as u64;
        let mut j: usize = 0;
        while j < 8
            invariant
                j <= 8,
                i < 256,
                crc == crc64_steps(i as u64, j as nat),
            decreases 8 - j,
        {
            if crc & 1 == 1 {
                crc = (crc >> 1) ^ 0xC96C_5795_D787_0F42;
            } else {
                crc = crc >> 1;
            }
            j = j + 1;
        }
        t.push(crc);
        i = i + 1;
    }
    t
}

/// A rolling CRC32 over the bytes fed in so far.
pub struct Crc32 {
    state: u32,
    table: Vec<u32>,
    processed: Ghost<Seq<u8>>,
}

impl Crc32 {
    /// The bytes folded into this state so far.
    pub closed spec fn processed(self) -> Seq<u8> {
        self.processed@
    }

    pub closed spec fn wf(self) -> bool {
        &&& self.table.len() == 256
        &&& (forall|i: int| 0 <= i < 256 ==> self.table[i] == crc32_steps(i as u32, 8))
        &&& self.state == crc32_acc(0xFFFF_FFFFu32, self.processed@)
    }

    pub fn new() -> (r: Self)
        ensures
            r.wf(),
            r.processed() == Seq::<u8>::empty(),
    {
        Crc32 { state: 0xFFFF_FFFF, table: build_crc32_table(), processed: Ghost(Seq::empty()) }
    }

    /// Fold one byte into the state with a single table lookup.
    pub fn process_next_byte(&mut self, byte: u8)
        requires
            old(self).wf(),
        ensures
            final(self).wf(),
            final(self).processed() == old(self).processed().push(byte),
    {
        let st = self.state;
        let idx = (st ^ byte as u32) & 0xFF;
        proof {
            lemma_crc32_steps_split(st ^ byte as u32);
            assert((st ^ byte as u32) >> 8 == st >> 8) by (bit_vector);
            assert(((st ^ byte as u32) & 0xFF) < 256) by (bit_vector);
            lemma_crc32_acc_push(0xFFFF_FFFFu32, self.processed@, byte);
        }
        self.state = self.table[idx as usize] ^ (st >> 8);
        self.processed = Ghost(self.processed@.push(byte));
    }

    /// Fold a run of bytes into the state.
    pub fn process_bytes(&mut self, bytes: &Vec<u8>)
        requires
            old(self).wf(),
        ensures
            final(self).wf(),
            final(self).processed() == old(self).processed() + bytes@,
    {
        let mut i: usize = 0;
        while i < bytes.len()
            invariant
                self.wf(),
                i <= bytes.len(),
                self.processed() == old(self).processed() + bytes@.take(i as int),
            decreases bytes.len() - i,
        {
            self.process_next_byte(bytes[i]);
            i = i + 1;
            proof {
                assert(old(self).processed() + bytes@.take(i as int) =~= (old(
                    self,
                ).processed() + bytes@.take(i - 1)).push(bytes@[i - 1]));
            }
        }
        proof {
            assert(bytes@.take(bytes@.len() as int) =~= bytes@);
        }
    }

    /// The digest of everything processed so far.
    pub fn result(&self) -> (r: u32)
        requires
            self.wf(),
        ensures
            r == crc32_of(self.processed()),
    {
        self.state ^ 0xFFFF_FFFF
    }
}

/// A rolling CRC64 over the bytes fed in so far.
pub struct Crc64 {
    state: u64,
    table: Vec<u64>,
    processed: Ghost<Seq<u8>>,
}

impl Crc64 {
    /// The bytes folded into this state so far.
    pub closed spec fn processed(self) -> Seq<u8> {
        self.processed@
    }

    pub closed spec fn wf(self) -> bool {
        &&& self.table.len() == 256
        &&& (forall|i: int| 0 <= i < 256 ==> self.table[i] == crc64_steps(i as u64, 8))
        &&& self.state == crc64_acc(0xFFFF_FFFF_FFFF_FFFFu64, self.processed@)
    }

    pub fn new() -> (r: Self)
        ensures
            r.wf(),
            r.processed() == Seq::<u8>::empty(),
    {
        Crc64 {
            state: 0xFFFF_FFFF_FFFF_FFFF,
            table: build_crc64_table(),
            processed: Ghost(Seq::empty()),
        }
    }

    /// Fold one byte into the state with a single table lookup.
    pub fn process_next_word(&mut self, word: u8)
        requires
            old(self).wf(),
        ensures
            final(self).wf(),
            final(self).processed() == old(self).processed().push(word),
    {
        let st = self.state;
        let idx = (st ^ word as u64) & 0xFF;
        proof {
            lemma_crc64_steps_split(st ^ word as u64);
            assert((st ^ word as u64) >> 8 == st >> 8) by (bit_vector);
            assert(((st ^ word as u64) & 0xFF) < 256) by (bit_vector);
            lemma_crc64_acc_push(0xFFFF_FFFF_FFFF_FFFFu64, self.processed@, word);
        }
        self.state = self.table[idx as usize] ^ (st >> 8);
        self.processed = Ghost(self.processed@.push(word));
    }

    /// Fold a run of bytes into the state.
    pub fn process_words(&mut self, words: &Vec<u8>)
        requires
            old(self).wf(),
        ensures
            final(self).wf(),
            final(self).processed() == old(self).processed() + words@,
    {
        let mut i: usize = 0;
        while i < words.len()
            invariant
                self.wf(),
                i <= words.len(),
                self.processed() == old(self).processed() + words@.take(i as int),
            decreases words.len() - i,
        {
            self.process_next_word(words[i]);
            i = i + 1;
            proof {
                assert(old(self).processed() + words@.take(i as int) =~= (old(
                    self,
                ).processed() + words@.take(i - 1)).push(words@[i - 1]));
            }
        }
        proof {
            assert(words@.take(words@.len() as int) =~= words@);
        }
    }

    /// The digest of everything processed so far.
    pub fn result(&self) -> (r: u64)
        requires
            self.wf(),
        ensures
            r == crc64_of(self.processed()),
    {
        self.state ^ 0xFFFF_FFFF_FFFF_FFFF
    }
}

/// The CRC32 of `data[from..to]`, computed in one pass.
pub fn crc32_range(data: &Vec<u8>, from: usize, to: usize) -> (r: u32)
    requires
        from <= to <= data.len(),
    ensures
        r == crc32_of(data@.subrange(from as int, to as int)),
{
    let mut crc = Crc32::new();
    let mut i: usize = from;
    while i < to
        invariant
            crc.wf(),
            from <= i <= to <= data.len(),
            crc.processed() == data@.subrange(from as int, i as int),
        decreases to - i,
    {
        crc.process_next_byte(data[i]);
        i = i + 1;
        proof {
            assert(data@.subrange(from as int, i as int) =~= data@.subrange(
                from as int,
                i - 1,
            ).push(data@[i - 1]));
        }
    }
    crc.result()
}

/// The CRC64 of `data[from..to]`, computed in one pass.
pub fn crc64_range(data: &Vec<u8>, from: usize, to: usize) -> (r: u64)
    requires
        from <= to <= data.len(),
    ensures
        r == crc64_of(data@.subrange(from as int, to as int)),
{
    let mut crc = Crc64::new();
    let mut i: usize = from;
    while i < to
        invariant
            crc.wf(),
            from <= i <= to <= data.len(),
            crc.processed() == data@.subrange(from as int, i as int),
        decreases to - i,
    {
        crc.process_next_word(data[i]);
        i = i + 1;
        proof {
            assert(data@.subrange(from as int, i as int) =~= data@.subrange(
                from as int,
                i - 1,
            ).push(data@[i - 1]));
        }
    }
    crc.result()
}

} // verus!
