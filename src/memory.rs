use vstd::arithmetic::div_mod::*;
use vstd::arithmetic::power2::*;
use vstd::bits::*;
use vstd::layout::size_of;
use vstd::prelude::*;

verus! {

/// `x` is a power of two.
pub open spec fn is_power(x: nat) -> bool {
    exists|k: nat| pow2(k) == x
}

/// The first power of two at or above `x`, searched upwards from `p`.
pub open spec fn next_power_from(x: nat, p: nat) -> nat
    decreases (if p >= x { 0 } else { x - p }),
{
    if p == 0 || p >= x {
        p
    } else {
        next_power_from(x, 2 * p)
    }
}

/// The smallest power of two at or above `x` (1 for 0).
pub open spec fn next_power(x: nat) -> nat {
    next_power_from(x, 1)
}

/// The largest chunk that one allocation of at most `max_mem_alloc` bytes may hold: the
/// limit itself when it is a power of two, else the next power of two at or above half of it.
pub open spec fn chunk_cap(max_mem_alloc: nat) -> nat {
    if next_power(max_mem_alloc) == max_mem_alloc {
        max_mem_alloc
    } else {
        next_power(max_mem_alloc / 2)
    }
}

proof fn lemma_next_power_from(x: nat, p: nat, k: nat)
    requires
        pow2(k) == p,
        p < 2 * x || x == 0,
    ensures
        is_power(next_power_from(x, p)),
        next_power_from(x, p) >= x,
        next_power_from(x, p) >= p,
        x >= 1 && p <= x ==> next_power_from(x, p) < 2 * x,
    decreases (if p >= x { 0 } else { x - p }),
{
    lemma_pow2_pos(k);
    if p >= x {
    } else {
        lemma_pow2_unfold(k + 1);
        lemma_next_power_from(x, 2 * p, k + 1);
    }
}

proof fn lemma_next_power(x: nat)
    ensures
        is_power(next_power(x)),
        next_power(x) >= x,
        next_power(x) >= 1,
        x >= 1 ==> next_power(x) < 2 * x,
{
    lemma2_to64();
    lemma_next_power_from(x, 1, 0);
}

/// Powers of two are ordered as their exponents.
proof fn lemma_pow2_le(a: nat, b: nat)
    requires
        pow2(a) <= pow2(b),
    ensures
        a <= b,
{
    if a > b {
        lemma_pow2_strictly_increases(b, a);
    }
}

/// A power of two divides every larger one.
proof fn lemma_pow2_div(a: nat, b: nat)
    requires
        b <= a,
    ensures
        pow2(a) / pow2(b) == pow2((a - b) as nat),
        pow2(b) * pow2((a - b) as nat) == pow2(a),
{
    lemma_pow2_subtracts(b, a);
    lemma_pow2_adds(b, (a - b) as nat);
}

/// The smallest power of two at or above `x`.
fn next_power_of_two(x: usize) -> (r: usize)
    requires
        x <= usize::MAX / 2 + 1,
    ensures
        r == next_power(x as nat),
{
    let mut p: usize = 1;
    let ghost mut k: nat = 0;
    proof {
        lemma2_to64();
    }
    while p < x
        invariant
            pow2(k) == p,
            p >= 1,
            p < 2 * x || x == 0,
            x <= usize::MAX / 2 + 1,
            next_power_from(x as nat, p as nat) == next_power(x as nat),
        decreases (if p >= x { 0 } else { x - p }),
    {
        proof {
            lemma_pow2_unfold(k + 1);
            k = k + 1;
        }
        p = p * 2;
    }
    p
}

/// Whether `x` is a power of two.
fn is_power_of_two(x: usize) -> (r: bool)
    ensures
        r == (next_power(x as nat) == x as nat),
{
    let mut p: usize = 1;
    while p < x && p <= usize::MAX / 2
        invariant
            p >= 1,
            next_power_from(x as nat, p as nat) == next_power(x as nat),
        decreases (if p >= x { 0 } else { x - p }),
    {
        p = p * 2;
    }
    proof {
        if p < x {
            lemma_next_power_from_above(x as nat, p as nat);
        }
    }
    p == x
}

proof fn lemma_next_power_from_above(x: nat, p: nat)
    requires
        1 <= p < x,
    ensures
        next_power_from(x, p) >= 2 * p,
    decreases x - p,
{
    assert(next_power_from(x, p) == next_power_from(x, 2 * p));
    if 2 * p < x {
        lemma_next_power_from_above(x, 2 * p);
    } else {
        assert(next_power_from(x, 2 * p) == 2 * p);
    }
}

/// The exponent of a power of two.
fn log2_of_power(x: usize) -> (r: u32)
    requires
        is_power(x as nat),
    ensures
        pow2(r as nat) == x,
        r < usize::BITS,
{
    let ghost k = choose|k: nat| pow2(k) == x;
    let mut y = x;
    let mut r: u32 = 0;
    proof {
        lemma2_to64();
        lemma2_to64_rest();
        if k >= usize::BITS {
            lemma_pow2_strictly_increases((usize::BITS - 1) as nat, k);
            if k > usize::BITS {
                lemma_pow2_strictly_increases(usize::BITS as nat, k);
            }
        }
    }
    while y > 1
        invariant
            y >= 1,
            r <= k,
            k < usize::BITS,
            pow2((k - r) as nat) == y,
        decreases y,
    {
        proof {
            lemma2_to64();
            if k == r {
                assert(false);
            }
            lemma_pow2_unfold((k - r) as nat);
            assert(((k - r - 1) as nat) == ((k - (r + 1)) as nat));
        }
        y = y / 2;
        r = r + 1;
    }
    proof {
        if k > r {
            lemma_pow2_strictly_increases(0, (k - r) as nat);
        }
    }
    r
}

/// How a buffer is cut into chunks of at most one allocation each, and the chunks into
/// segments of work, at least one per core.
pub struct Constants {
    pub nchunk: usize,
    pub chunk_size: usize,
    pub nwork: usize,
    pub work_size: usize,
}

impl Constants {
    /// The layout of `nelements` elements of type `T` in chunks of at most
    /// `max_mem_alloc` bytes, for `ncore` cores.
    pub fn calculate<T>(nelements: usize, max_mem_alloc: usize, ncore: usize) -> (r: Constants)
        requires
            is_power(size_of::<T>()),
            is_power(nelements as nat),
            nelements * size_of::<T>() <= usize::MAX,
            max_mem_alloc >= 1,
            ncore <= usize::MAX / 2 + 1,
        ensures
            ({
                let total: nat = (nelements * size_of::<T>()) as nat;
                let cap: nat = chunk_cap(max_mem_alloc as nat);
                &&& r.chunk_size == if total < cap {
                    total
                } else {
                    cap
                }
                &&& r.nchunk == if total < cap {
                    1
                } else {
                    total / cap
                }
                &&& r.nchunk * r.chunk_size == total
                &&& is_power(r.chunk_size as nat)
                &&& r.chunk_size >= 1
                &&& r.chunk_size <= max_mem_alloc
                &&& ncore < r.nchunk ==> r.work_size == r.chunk_size && r.nwork == r.nchunk
                &&& ncore >= r.nchunk ==> r.nwork == next_power(ncore as nat) && r.work_size
                    == r.chunk_size as nat / (next_power(ncore as nat) / r.nchunk as nat)
                &&& r.nwork >= ncore
                &&& r.nwork >= r.nchunk
                &&& r.nwork == r.nchunk * work_per_chunk(ncore as nat, r.nchunk as nat)
                &&& r.work_size == r.chunk_size as nat / work_per_chunk(ncore as nat, r.nchunk as nat)
                &&& work_per_chunk(ncore as nat, r.nchunk as nat) >= 1
                &&& next_power(ncore as nat) <= total ==> r.work_size * (r.nwork / r.nchunk)
                    == r.chunk_size && r.nwork % r.nchunk == 0
            }),
    {
        let elem = core::mem::size_of::<T>();
        let ghost ke = choose|k: nat| pow2(k) == size_of::<T>();
        let ghost kn = choose|k: nat| pow2(k) == nelements;
        proof {
            lemma_pow2_adds(kn, ke);
        }
        let total = nelements * elem;
        let ghost kt = kn + ke;
        assert(pow2(kt) == total);
        proof {
            lemma_next_power(max_mem_alloc as nat);
            lemma_next_power((max_mem_alloc / 2) as nat);
        }
        let max = if is_power_of_two(max_mem_alloc) {
            max_mem_alloc
        } else {
            next_power_of_two(max_mem_alloc / 2)
        };
        assert(max == chunk_cap(max_mem_alloc as nat));
        let ghost km = choose|k: nat| pow2(k) == max;
        let (chunk_size, nchunk) = if total < max {
            (total, 1usize)
        } else {
            proof {
                lemma_pow2_le(km, kt);
                lemma_pow2_div(kt, km);
            }
            (max, total / max)
        };
        let ghost kc = if total < max { kt } else { km };
        let ghost kk: nat = if total < max { 0 } else { (kt - km) as nat };
        assert(pow2(kc) == chunk_size);
        proof {
            lemma_pow2_pos(kc);
            lemma2_to64();
            if total >= max {
                lemma_pow2_le(km, kt);
                lemma_pow2_div(kt, km);
            }
        }
        assert(pow2(kk) == nchunk);
        assert(nchunk * chunk_size == total) by (nonlinear_arith)
            requires
                total < max ==> nchunk == 1 && chunk_size == total,
                total >= max ==> chunk_size * nchunk == total,
        ;
        if ncore < nchunk {
            proof {
                lemma_div_by_self(nchunk as int);
                lemma_mod_self_0(nchunk as int);
                lemma_div_by_self(chunk_size as int);
            }
            return Constants { nchunk, chunk_size, nwork: nchunk, work_size: chunk_size };
        }
        proof {
            lemma_next_power(ncore as nat);
        }
        let q = next_power_of_two(ncore);
        let ghost kq = choose|k: nat| pow2(k) == q;
        proof {
            lemma_pow2_le(kk, kq);
            lemma_pow2_div(kq, kk);
        }
        let div = q / nchunk;
        proof {
            lemma_pow2_pos((kq - kk) as nat);
        }
        assert(nchunk * div == q);
        let nwork = nchunk * div;
        let work_size = chunk_size / div;
        proof {
            let kd = (kq - kk) as nat;
            assert(pow2(kd) == div);
            lemma_pow2_pos(kk);
            lemma_mod_multiples_vanish(0, div as int, nchunk as int);
            assert(nwork / nchunk == div) by {
                lemma_div_multiples_vanish(div as int, nchunk as int);
                assert(nchunk * div == div * nchunk) by (nonlinear_arith);
            }
            assert(nwork % nchunk == 0) by {
                lemma_mod_multiples_basic(div as int, nchunk as int);
                assert(nchunk * div == div * nchunk) by (nonlinear_arith);
            }
            if q <= total {
                // div = q / nchunk <= total / nchunk = chunk_size, so div divides chunk_size.
                lemma_pow2_adds(kk, kc);
                assert(pow2(kk + kc) == total);
                lemma_pow2_le(kq, kk + kc);
                lemma_pow2_div(kc, kd);
                assert(work_size * div == chunk_size) by (nonlinear_arith)
                    requires
                        work_size == chunk_size / div,
                        div * (chunk_size / div) == chunk_size,
                ;
            }
        }
        Constants { nchunk, chunk_size, nwork, work_size }
    }
}

/// The cores that share one chunk: one when there are more chunks than cores, else the
/// cores rounded up to a power of two, spread evenly over the chunks.
pub open spec fn work_per_chunk(ncore: nat, nchunk: nat) -> nat {
    if ncore < nchunk {
        1
    } else {
        next_power(ncore) / nchunk
    }
}

/// A buffer allocated as separate chunks of bytes.
pub struct Memory {
    pub chunks: Vec<Vec<u8>>,
}

/// Read access to the whole buffer and write access to one segment of it, the work of
/// one core: `work_size` bytes from `work_offset`.
#[derive(Clone, Copy, Debug, PartialEq, Eq, Structural)]
pub struct MemoryAccess {
    pub work_offset: usize,
    pub work_size: usize,
    pub chunk_mask: usize,
    pub chunk_size_log2: u32,
}

impl MemoryAccess {
    /// This access addresses `memory`: its chunks have the size that the mask gives.
    pub open spec fn addresses(&self, memory: &Memory) -> bool {
        &&& self.chunk_size_log2 < usize::BITS
        &&& pow2(self.chunk_size_log2 as nat) == self.chunk_mask + 1
        &&& forall|j: int|
            0 <= j < memory.chunks@.len() ==> (#[trigger] memory.chunks@[j])@.len() == self.chunk_mask + 1
    }

    /// The first element of the segment, for elements of type `T`.
    pub fn work_offset<T>(&self) -> (r: usize)
        requires
            size_of::<T>() > 0,
        ensures
            r == self.work_offset as nat / size_of::<T>(),
    {
        self.work_offset / core::mem::size_of::<T>()
    }

    /// The number of elements of type `T` in the segment.
    pub fn work_size<T>(&self) -> (r: usize)
        requires
            size_of::<T>() > 0,
        ensures
            r == self.work_size as nat / size_of::<T>(),
    {
        self.work_size / core::mem::size_of::<T>()
    }

    proof fn lemma_split(&self, index: usize)
        requires
            self.chunk_size_log2 < usize::BITS,
            pow2(self.chunk_size_log2 as nat) == self.chunk_mask + 1,
        ensures
            (index >> self.chunk_size_log2) as nat == index as nat / (self.chunk_mask + 1) as nat,
            (index & self.chunk_mask) as nat == index as nat % (self.chunk_mask + 1) as nat,
    {
        lemma_usize_shr_is_div(index, self.chunk_size_log2 as usize);
        lemma_usize_low_bits_mask_is_mod(index, self.chunk_size_log2 as nat);
        lemma_usize_pow2_no_overflow(self.chunk_size_log2 as nat);
        assert(low_bits_mask(self.chunk_size_log2 as nat) == pow2(self.chunk_size_log2 as nat) - 1);
        assert(low_bits_mask(self.chunk_size_log2 as nat) as usize == self.chunk_mask);
    }

    /// The byte at `index` of the whole buffer.
    pub fn read(&self, memory: &Memory, index: usize) -> (r: u8)
        requires
            self.addresses(memory),
            index < memory.chunks@.len() * (self.chunk_mask + 1),
        ensures
            r == memory.chunks@[index as int / (self.chunk_mask + 1) as int]@[index as int % (self.chunk_mask + 1) as int],
    {
        proof {
            self.lemma_split(index);
            lemma_div_bound(index as int, (self.chunk_mask + 1) as int, memory.chunks@.len() as int);
        }
        let j = index >> (self.chunk_size_log2 as usize);
        let offset = index & self.chunk_mask;
        memory.chunks[j][offset]
    }

    /// Writes `element` at `index`, which lies in this access's segment.
    pub fn write(&self, memory: &mut Memory, index: usize, element: u8)
        requires
            self.addresses(old(memory)),
            index < old(memory).chunks@.len() * (self.chunk_mask + 1),
            self.work_offset <= index < self.work_offset + self.work_size,
        ensures
            self.addresses(final(memory)),
            final(memory).chunks@.len() == old(memory).chunks@.len(),
            forall|j: int|
                0 <= j < old(memory).chunks@.len() ==> (#[trigger] final(memory).chunks@[j])@ == if j == index as int
                    / (self.chunk_mask + 1) as int {
                    old(memory).chunks@[j]@.update(index as int % (self.chunk_mask + 1) as int, element)
                } else {
                    old(memory).chunks@[j]@
                },
    {
        proof {
            self.lemma_split(index);
            lemma_div_bound(index as int, (self.chunk_mask + 1) as int, memory.chunks@.len() as int);
        }
        let j = index >> (self.chunk_size_log2 as usize);
        let offset = index & self.chunk_mask;
        let mut chunk: Vec<u8> = Vec::new();
        core::mem::swap(&mut chunk, &mut memory.chunks[j]);
        chunk.set(offset, element);
        memory.chunks.set(j, chunk);
    }
}

proof fn lemma_div_bound(i: int, d: int, n: int)
    requires
        0 <= i < n * d,
        d > 0,
    ensures
        i / d < n,
        0 <= i % d < d,
{
    lemma_div_pos_is_pos(i, d);
    lemma_fundamental_div_mod(i, d);
    if i / d >= n {
        assert(false) by (nonlinear_arith)
            requires
                i / d >= n,
                d > 0,
                i == d * (i / d) + i % d,
                i % d >= 0,
                i < n * d,
        ;
    }
}

/// A vector of `n` zero bytes.
fn zeroed(n: usize) -> (r: Vec<u8>)
    ensures
        r@ == Seq::new(n as nat, |_i: int| 0u8),
{
    let mut r: Vec<u8> = Vec::new();
    let mut k: usize = 0;
    while k < n
        invariant
            k <= n,
            r@ == Seq::new(k as nat, |_i: int| 0u8),
        decreases n - k,
    {
        r.push(0u8);
        k = k + 1;
        assert(r@ =~= Seq::new(k as nat, |_i: int| 0u8));
    }
    r
}

/// The position of segment `i` of chunk `c` among all segments.
pub open spec fn slot(c: int, i: int, per_chunk: int) -> int {
    c * per_chunk + i
}

/// Allocates `nelements` zeroed elements of type `T` in chunks of at most `max_mem_alloc`
/// bytes, and one access per segment of work for `ncore` cores, chunk by chunk.
pub fn allocate<T>(nelements: usize, max_mem_alloc: usize, ncore: usize) -> (r: (Memory, Vec<MemoryAccess>))
    requires
        is_power(size_of::<T>()),
        is_power(nelements as nat),
        nelements * size_of::<T>() <= usize::MAX,
        max_mem_alloc >= 1,
        ncore <= usize::MAX / 2 + 1,
    ensures
        ({
            let total: nat = (nelements * size_of::<T>()) as nat;
            let cap: nat = chunk_cap(max_mem_alloc as nat);
            let chunk_size: nat = if total < cap { total } else { cap };
            let nchunk: nat = if total < cap { 1 } else { total / cap };
            let per_chunk = work_per_chunk(ncore as nat, nchunk);
            let work_size = chunk_size / per_chunk;
            &&& r.0.chunks@.len() == nchunk
            &&& forall|j: int|
                0 <= j < nchunk ==> (#[trigger] r.0.chunks@[j])@ == Seq::new(chunk_size, |_i: int| 0u8)
            &&& r.1@.len() == nchunk * per_chunk
            &&& forall|w: int|
                0 <= w < r.1@.len() ==> {
                    let a = #[trigger] r.1@[w];
                    &&& a.work_size == work_size
                    &&& a.chunk_mask + 1 == chunk_size
                    &&& a.addresses(&r.0)
                }
            &&& forall|c: int, i: int|
                0 <= c < nchunk && 0 <= i < per_chunk ==> (#[trigger] r.1@[slot(c, i, per_chunk as int)]).work_offset
                    == c * chunk_size + i * work_size
        }),
{
    let constants = Constants::calculate::<T>(nelements, max_mem_alloc, ncore);
    let chunk_size = constants.chunk_size;
    let nchunk = constants.nchunk;
    let work_size = constants.work_size;
    let ghost per_chunk = work_per_chunk(ncore as nat, nchunk as nat);
    proof {
        lemma_div_multiples_vanish(per_chunk as int, nchunk as int);
        assert(nchunk * per_chunk == per_chunk * nchunk) by (nonlinear_arith);
        lemma_fundamental_div_mod(chunk_size as int, per_chunk as int);
        assert(work_size * per_chunk <= chunk_size) by (nonlinear_arith)
            requires
                work_size == chunk_size as int / per_chunk as int,
                chunk_size as int == per_chunk * (chunk_size as int / per_chunk as int) + chunk_size as int % per_chunk as int,
                chunk_size as int % per_chunk as int >= 0,
        ;
    }
    let work_per_chunk = constants.nwork / nchunk;
    assert(work_per_chunk == per_chunk);
    let log2 = log2_of_power(chunk_size);
    let mask = chunk_size - 1;
    let mut chunks: Vec<Vec<u8>> = Vec::new();
    let mut j: usize = 0;
    while j < nchunk
        invariant
            j <= nchunk,
            chunks@.len() == j,
            forall|q: int| 0 <= q < j ==> (#[trigger] chunks@[q])@ == Seq::new(chunk_size as nat, |_i: int| 0u8),
        decreases nchunk - j,
    {
        chunks.push(zeroed(chunk_size));
        j = j + 1;
    }
    let memory = Memory { chunks };
    let mut accesses: Vec<MemoryAccess> = Vec::new();
    let mut c: usize = 0;
    while c < nchunk
        invariant
            c <= nchunk,
            nchunk * chunk_size <= usize::MAX,
            work_size * work_per_chunk <= chunk_size,
            work_per_chunk >= 1,
            accesses@.len() == c * work_per_chunk,
            forall|w: int|
                0 <= w < accesses@.len() ==> {
                    let a = #[trigger] accesses@[w];
                    &&& a.work_size == work_size
                    &&& a.chunk_mask == mask
                    &&& a.chunk_size_log2 == log2
                },
            forall|c2: int, i2: int|
                0 <= c2 < c && 0 <= i2 < work_per_chunk ==> (#[trigger] accesses@[slot(c2, i2, work_per_chunk as int)]).work_offset
                    == c2 * chunk_size + i2 * work_size,
        decreases nchunk - c,
    {
        assert(c * chunk_size + chunk_size <= nchunk * chunk_size) by (nonlinear_arith)
            requires
                c < nchunk,
        ;
        let base = c * chunk_size;
        let mut i: usize = 0;
        while i < work_per_chunk
            invariant
                c < nchunk,
                i <= work_per_chunk,
                base == c * chunk_size,
                base + chunk_size <= usize::MAX,
                work_size * work_per_chunk <= chunk_size,
                accesses@.len() == c * work_per_chunk + i,
                forall|w: int|
                    0 <= w < accesses@.len() ==> {
                        let a = #[trigger] accesses@[w];
                        &&& a.work_size == work_size
                        &&& a.chunk_mask == mask
                        &&& a.chunk_size_log2 == log2
                    },
                forall|c2: int, i2: int|
                    0 <= c2 < c && 0 <= i2 < work_per_chunk ==> (#[trigger] accesses@[slot(c2, i2, work_per_chunk as int)]).work_offset
                        == c2 * chunk_size + i2 * work_size,
                forall|i2: int|
                    0 <= i2 < i ==> (#[trigger] accesses@[slot(c as int, i2, work_per_chunk as int)]).work_offset
                        == c * chunk_size + i2 * work_size,
            decreases work_per_chunk - i,
        {
            assert(i * work_size <= chunk_size) by (nonlinear_arith)
                requires
                    i < work_per_chunk,
                    work_size * work_per_chunk <= chunk_size,
            ;
            let ghost before = accesses@;
            accesses.push(
                MemoryAccess {
                    work_offset: base + i * work_size,
                    work_size,
                    chunk_mask: mask,
                    chunk_size_log2: log2,
                },
            );
            proof {
                assert(slot(c as int, i as int, work_per_chunk as int) == before.len());
                assert forall|c2: int, i2: int|
                    0 <= c2 < c && 0 <= i2 < work_per_chunk implies (#[trigger] accesses@[slot(c2, i2, work_per_chunk as int)]).work_offset
                        == c2 * chunk_size + i2 * work_size by {
                    assert(slot(c2, i2, work_per_chunk as int) < c * work_per_chunk) by (nonlinear_arith)
                        requires
                            c2 < c,
                            i2 < work_per_chunk,
                    ;
                    assert(accesses@[slot(c2, i2, work_per_chunk as int)] == before[slot(c2, i2, work_per_chunk as int)]);
                }
                assert forall|i2: int|
                    0 <= i2 < i + 1 implies (#[trigger] accesses@[slot(c as int, i2, work_per_chunk as int)]).work_offset
                        == c * chunk_size + i2 * work_size by {
                    if i2 < i {
                        assert(accesses@[slot(c as int, i2, work_per_chunk as int)] == before[slot(c as int, i2, work_per_chunk as int)]);
                    }
                }
            }
            i = i + 1;
        }
        assert(c * work_per_chunk + work_per_chunk == (c + 1) * work_per_chunk) by (nonlinear_arith);
        c = c + 1;
    }
    proof {
        assert forall|w: int| 0 <= w < accesses@.len() implies (#[trigger] accesses@[w]).addresses(&memory) by {
            assert(pow2(log2 as nat) == chunk_size);
        }
    }
    (memory, accesses)
}

} // verus!
