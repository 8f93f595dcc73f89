//! A 64-set, 4-way, 32-byte-line write-back cache with LRU replacement,
//! standing between the processor and flat memory.

use vstd::prelude::*;
use crate::instructions::Word;
use crate::memory::{
    MemoryAddress, Memory, MemoryError, word_at, put_word, word_in_bounds, lemma_bytes_of_word,
    byte_of, word_of_bytes,
};

verus! {

/// Bytes in a line.
pub const CACHE_LINE_SIZE: usize = 32;

/// Number of sets.
pub const CACHE_SETS: usize = 64;

/// Lines (ways) per set.
pub const CACHE_WAYS: usize = 4;

/// One cache line.
#[derive(Debug, Clone, Copy)]
pub struct CacheLine {
    pub valid: bool,
    pub dirty: bool,
    pub tag: u32,
    pub data: [u8; CACHE_LINE_SIZE],
    /// Value of the access counter at the line's last use.
    pub access_time: u64,
}

/// The ways of one set.
#[derive(Debug, Clone, Copy)]
pub struct CacheSet {
    pub lines: [CacheLine; CACHE_WAYS],
}

/// Access statistics; they never influence what the cache does.
#[derive(Debug, Clone, Copy, PartialEq, Eq, Structural)]
pub struct CacheStats {
    pub hits: u64,
    pub misses: u64,
    pub writebacks: u64,
}

/// The set an address maps to.
pub open spec fn set_of(a: int) -> int {
    (a / 32) % 64
}

/// The tag of an address.
pub open spec fn tag_of(a: int) -> int {
    a / 32 / 64
}

/// The position of an address inside its line.
pub open spec fn offset_of(a: int) -> int {
    a % 32
}

/// The first address of the line with tag `t` in set `s`.
pub open spec fn line_base(s: int, t: int) -> int {
    (t * 64 + s) * 32
}

/// The first address of the line that holds `a`.
pub open spec fn line_base_of(a: int) -> int {
    line_base(set_of(a), tag_of(a))
}

/// Whether the whole line holding `a` lies inside a memory of `len` bytes.
pub open spec fn line_fits(a: int, len: int) -> bool {
    line_base_of(a) + 32 <= len
}

/// `m` with the 32 bytes of `data` stored from `base` on, as far as `m` reaches.
pub open spec fn write_block(m: Seq<u8>, base: int, data: Seq<u8>) -> Seq<u8> {
    Seq::new(m.len(), |i: int| if base <= i < base + 32 { data[i - base] } else { m[i] })
}

/// The first address of a block from `base` that lies outside `len` bytes.
pub open spec fn first_fault(base: int, len: int) -> u32 {
    if base >= len {
        base as u32
    } else {
        len as u32
    }
}

/// Every address lies at its offset inside the line of its set and tag.
pub proof fn lemma_address_split(a: int)
    requires
        0 <= a,
    ensures
        a == line_base_of(a) + offset_of(a),
        0 <= set_of(a) < 64,
        0 <= tag_of(a),
        0 <= offset_of(a) < 32,
{
    let q = a / 32;
    assert(a == q * 32 + a % 32);
    assert(q == (q / 64) * 64 + q % 64);
    assert(a == ((q / 64) * 64 + q % 64) * 32 + a % 32);
}

/// An address inside the line of set `s` and tag `t` maps back to `s` and `t`.
pub proof fn lemma_in_line(s: int, t: int, b: int)
    requires
        0 <= s < 64,
        0 <= t,
        line_base(s, t) <= b < line_base(s, t) + 32,
    ensures
        set_of(b) == s,
        tag_of(b) == t,
        offset_of(b) == b - line_base(s, t),
{
    let o = b - line_base(s, t);
    vstd::arithmetic::div_mod::lemma_fundamental_div_mod_converse(b, 32, t * 64 + s, o);
    vstd::arithmetic::div_mod::lemma_fundamental_div_mod_converse(t * 64 + s, 64, t, s);
}

/// A tag never exceeds what a 32-bit address yields, so a line base fits in 32 bits.
pub proof fn lemma_tag_bound(a: u32)
    ensures
        tag_of(a as int) < 0x20_0000,
        line_base_of(a as int) + 32 <= 0x1_0000_0000,
{
    lemma_address_split(a as int);
}

/// A line that fits in memory means every earlier address's line fits too.
pub proof fn lemma_line_fits_mono(a: int, b: int, len: int)
    requires
        0 <= a <= b,
        line_fits(b, len),
    ensures
        line_fits(a, len),
        line_base_of(a) <= a,
{
    lemma_address_split(a);
    lemma_address_split(b);
    vstd::arithmetic::div_mod::lemma_div_is_ordered(a, b, 32);
    assert(line_base_of(a) == (a / 32) * 32) by {
        vstd::arithmetic::div_mod::lemma_fundamental_div_mod(a, 32);
    }
    assert(line_base_of(b) == (b / 32) * 32) by {
        vstd::arithmetic::div_mod::lemma_fundamental_div_mod(b, 32);
    }
    vstd::arithmetic::mul::lemma_mul_inequality(a / 32, b / 32, 32);
}

/// Whether every byte of the word at `a` has its line inside `len` bytes.
pub open spec fn word_lines_fit(a: int, len: int) -> bool {
    line_fits(a + 3, len)
}

/// Whether way `w` is the replacement victim among `lines`: the lowest
/// invalid way if there is one, else the way with the smallest access time,
/// ties going to the lowest index.
pub open spec fn is_lru_victim(lines: Seq<CacheLine>, w: int) -> bool {
    &&& 0 <= w < lines.len()
    &&& if exists|v: int| 0 <= v < lines.len() && !(#[trigger] lines[v]).valid {
        &&& !lines[w].valid
        &&& forall|v: int| 0 <= v < w ==> (#[trigger] lines[v]).valid
    } else {
        forall|v: int|
            0 <= v < lines.len() ==> lines[w].access_time <= (#[trigger] lines[v]).access_time && (v
                < w ==> lines[v].access_time != lines[w].access_time)
    }
}

/// The replacement victim among `lines`.
pub open spec fn lru_way(lines: Seq<CacheLine>) -> int {
    choose|w: int| is_lru_victim(lines, w)
}

/// There is at most one victim.
pub proof fn lemma_lru_victim_unique(lines: Seq<CacheLine>, w1: int, w2: int)
    requires
        is_lru_victim(lines, w1),
        is_lru_victim(lines, w2),
    ensures
        w1 == w2,
{
    if exists|v: int| 0 <= v < lines.len() && !(#[trigger] lines[v]).valid {
        if w1 < w2 {
            assert(lines[w1].valid);
        } else if w2 < w1 {
            assert(lines[w2].valid);
        }
    } else {
        assert(lines[w1].access_time <= lines[w2].access_time);
        assert(lines[w2].access_time <= lines[w1].access_time);
    }
}

/// A victim found is the victim.
pub proof fn lemma_lru_way(lines: Seq<CacheLine>, w: int)
    requires
        is_lru_victim(lines, w),
    ensures
        lru_way(lines) == w,
{
    lemma_lru_victim_unique(lines, w, lru_way(lines));
}


/// The cache: its sets, statistics and the counter that stamps each access.
#[derive(Debug)]
pub struct Cache {
    sets: [CacheSet; CACHE_SETS],
    stats: CacheStats,
    access_counter: u64,
}

impl Cache {
    /// Way `w` of set `s`.
    pub closed spec fn line(&self, s: int, w: int) -> CacheLine {
        self.sets[s].lines[w]
    }

    /// The access counter: the stamp the next access gets.
    pub closed spec fn counter(&self) -> u64 {
        self.access_counter
    }

    /// The statistics.
    pub closed spec fn spec_stats(&self) -> CacheStats {
        self.stats
    }

    /// Way `w` of set `s` is valid and holds tag `t`.
    pub open spec fn holds(&self, s: int, w: int, t: int) -> bool {
        self.line(s, w).valid && self.line(s, w).tag == t
    }

    /// The first way of set `s` that holds tag `t`, or 4 when none does.
    pub open spec fn find_way(&self, s: int, t: int) -> int {
        if self.holds(s, 0, t) {
            0
        } else if self.holds(s, 1, t) {
            1
        } else if self.holds(s, 2, t) {
            2
        } else if self.holds(s, 3, t) {
            3
        } else {
            4
        }
    }

    /// Whether the line holding address `a` is in the cache.
    pub open spec fn is_hit(&self, a: int) -> bool {
        self.find_way(set_of(a), tag_of(a)) < 4
    }

    /// The four lines of set `s`.
    pub open spec fn set_lines(&self, s: int) -> Seq<CacheLine> {
        seq![self.line(s, 0), self.line(s, 1), self.line(s, 2), self.line(s, 3)]
    }

    /// The way a miss in set `s` replaces.
    pub open spec fn victim(&self, s: int) -> int {
        lru_way(self.set_lines(s))
    }

    /// Invalid lines are clean, tags fit a 32-bit address, no two valid
    /// lines of a set share a tag or an access time, and every valid line was
    /// stamped before the counter's current value.
    pub closed spec fn wf(&self) -> bool {
        &&& forall|s: int, w: int|
            0 <= s < 64 && 0 <= w < 4 ==> {
                &&& (!(#[trigger] self.line(s, w)).valid ==> !self.line(s, w).dirty)
                &&& (self.line(s, w).valid ==> self.line(s, w).tag < 0x20_0000)
            }
        &&& forall|s: int, w1: int, w2: int|
            0 <= s < 64 && 0 <= w1 < 4 && 0 <= w2 < 4 && w1 != w2 && (#[trigger] self.line(
                s,
                w1,
            )).valid && (#[trigger] self.line(s, w2)).valid ==> self.line(s, w1).tag != self.line(
                s,
                w2,
            ).tag && self.line(s, w1).access_time != self.line(s, w2).access_time
        &&& forall|s: int, w: int|
            0 <= s < 64 && 0 <= w < 4 && (#[trigger] self.line(s, w)).valid ==> self.line(
                s,
                w,
            ).access_time < self.counter()
    }

    /// The counters can grow by `n` without overflow.
    pub open spec fn headroom(&self, n: int) -> bool {
        &&& self.counter() + n <= u64::MAX
        &&& self.spec_stats().hits + n <= u64::MAX
        &&& self.spec_stats().misses + n <= u64::MAX
        &&& self.spec_stats().writebacks + n <= u64::MAX
    }

    /// All lines but way `w` of set `s` are the same in both caches.
    pub open spec fn same_lines_except(&self, other: &Cache, s: int, w: int) -> bool {
        forall|s2: int, w2: int|
            0 <= s2 < 64 && 0 <= w2 < 4 && !(s2 == s && w2 == w) ==> #[trigger] self.line(s2, w2)
                == other.line(s2, w2)
    }

    /// The byte at address `b` as the processor sees it: the cached copy when
    /// its line is resident, else the byte of `m`.
    pub open spec fn cached_byte(&self, m: Seq<u8>, b: int) -> u8 {
        let w = self.find_way(set_of(b), tag_of(b));
        if w < 4 {
            self.line(set_of(b), w).data@[offset_of(b)]
        } else {
            m[b]
        }
    }

    /// The memory as seen through the cache.
    pub open spec fn contents(&self, m: Seq<u8>) -> Seq<u8> {
        Seq::new(m.len(), |b: int| self.cached_byte(m, b))
    }

    /// Every valid line lies inside `m`, and every clean valid line holds the
    /// bytes of `m` it stands for.
    pub open spec fn coherent(&self, m: Seq<u8>) -> bool {
        forall|s: int, w: int|
            0 <= s < 64 && 0 <= w < 4 && (#[trigger] self.line(s, w)).valid ==> {
                let base = line_base(s, self.line(s, w).tag as int);
                &&& base + 32 <= m.len()
                &&& !self.line(s, w).dirty ==> self.line(s, w).data@ == m.subrange(base, base + 32)
            }
    }

    /// Whether no line is valid.
    pub open spec fn is_empty(&self) -> bool {
        forall|s: int, w: int| 0 <= s < 64 && 0 <= w < 4 ==> !(#[trigger] self.line(s, w)).valid
    }

    /// The victim of a set is one of its four ways.
    proof fn lemma_victim_in_range(&self, s: int)
        ensures
            0 <= self.victim(s) < 4,
    {
        let lines = self.set_lines(s);
        let t0 = lines[0].access_time;
        let t1 = lines[1].access_time;
        let t2 = lines[2].access_time;
        let t3 = lines[3].access_time;
        let w = if !lines[0].valid {
            0
        } else if !lines[1].valid {
            1
        } else if !lines[2].valid {
            2
        } else if !lines[3].valid {
            3
        } else if t0 <= t1 && t0 <= t2 && t0 <= t3 {
            0
        } else if t1 < t0 && t1 <= t2 && t1 <= t3 {
            1
        } else if t2 < t0 && t2 < t1 && t2 <= t3 {
            2
        } else {
            3
        };
        if !lines[0].valid || !lines[1].valid || !lines[2].valid || !lines[3].valid {
            assert(!lines[w].valid);
        } else {
            assert(!exists|v: int| 0 <= v < lines.len() && !(#[trigger] lines[v]).valid);
        }
        assert(is_lru_victim(lines, w));
        lemma_lru_way(lines, w);
    }

    /// Cleaning every line of a coherent cache after writing the dirty ones
    /// back publishes exactly the contents, and the cleaned cache sees the
    /// same contents.
    proof fn lemma_flush_view(&self, c2: &Cache, m: Seq<u8>)
        requires
            c2.counter() == self.counter(),
            self.wf(),
            self.coherent(m),
            forall|s: int, w: int|
                0 <= s < 64 && 0 <= w < 4 ==> #[trigger] c2.line(s, w) == (CacheLine {
                    dirty: false,
                    ..self.line(s, w)
                }),
        ensures
            self.written_back_upto(m, 256) == self.contents(m),
            self.dirty_lines_fit(m.len() as int),
            c2.wf(),
            c2.coherent(self.contents(m)),
            c2.contents(self.contents(m)) == self.contents(m),
    {
        let cm = self.contents(m);
        assert forall|b: int| 0 <= b < m.len() implies self.written_back_upto(m, 256)[b] == cm[b] by {
            lemma_address_split(b);
            let sb = set_of(b);
            let w = self.find_way(sb, tag_of(b));
            if w < 4 {
                let base = line_base(sb, tag_of(b));
                assert(self.line(sb, w).valid);
                if !self.line(sb, w).dirty {
                    assert(self.line(sb, w).data@ == m.subrange(base, base + 32));
                }
            }
        }
        assert(self.written_back_upto(m, 256) =~= cm);
        assert forall|s: int, w: int| 0 <= s < 64 && 0 <= w < 4 && (#[trigger] self.line(s, w)).dirty implies line_base(
            s,
            self.line(s, w).tag as int,
        ) + 32 <= m.len() by {
            assert(self.line(s, w).valid);
        }
        assert forall|s: int, w: int| 0 <= s < 64 && 0 <= w < 4 && (#[trigger] c2.line(s, w)).valid implies {
            let base = line_base(s, c2.line(s, w).tag as int);
            &&& base + 32 <= cm.len()
            &&& !c2.line(s, w).dirty ==> c2.line(s, w).data@ == cm.subrange(base, base + 32)
        } by {
            let t = self.line(s, w).tag as int;
            let base = line_base(s, t);
            assert(self.line(s, w).valid);
            assert forall|i: int| 0 <= i < 32 implies cm[base + i] == self.line(s, w).data@[i] by {
                lemma_in_line(s, t, base + i);
                self.lemma_find_way(s, w, t);
            }
            assert(c2.line(s, w).data@ =~= cm.subrange(base, base + 32));
        }
        self.lemma_same_but_times_except_dirty(c2, cm);
    }

    /// Caches whose lines agree but for dirty bits find the same lines, show
    /// the same contents and are equally well-formed where `c2` is all clean.
    proof fn lemma_same_but_times_except_dirty(&self, c2: &Cache, m: Seq<u8>)
        requires
            c2.counter() == self.counter(),
            self.wf(),
            forall|s: int, w: int|
                0 <= s < 64 && 0 <= w < 4 ==> #[trigger] c2.line(s, w) == (CacheLine {
                    dirty: false,
                    ..self.line(s, w)
                }),
        ensures
            c2.wf(),
            c2.contents(m) == self.contents(m),
    {
        assert forall|b: int| 0 <= b < m.len() implies c2.cached_byte(m, b) == self.cached_byte(m, b) by {
            lemma_address_split(b);
        }
        assert(c2.contents(m) =~= self.contents(m));
        assert forall|s2: int, w1: int, w2: int|
            0 <= s2 < 64 && 0 <= w1 < 4 && 0 <= w2 < 4 && w1 != w2 && (#[trigger] c2.line(
                s2,
                w1,
            )).valid && (#[trigger] c2.line(s2, w2)).valid implies c2.line(s2, w1).tag != c2.line(
            s2,
            w2,
        ).tag by {
            assert(self.line(s2, w1).valid && self.line(s2, w2).valid);
        }
    }

    /// In a well-formed cache, no way of a set but the one holding a tag
    /// holds it as well.
    proof fn lemma_sole_holder(&self, s: int, w: int, t: int)
        requires
            self.wf(),
            0 <= s < 64,
            0 <= w < 4,
            self.holds(s, w, t),
        ensures
            forall|w2: int| 0 <= w2 < 4 && w2 != w ==> !#[trigger] self.holds(s, w2, t),
    {
        assert forall|w2: int| 0 <= w2 < 4 && w2 != w implies !#[trigger] self.holds(s, w2, t) by {
            if self.holds(s, w2, t) {
                self.lemma_find_way(s, w2, t);
                self.lemma_find_way(s, w, t);
            }
        }
    }

    /// A coherent cache can always write the victim of a set back.
    proof fn lemma_coherent_eviction_fits(&self, m: Seq<u8>, s: int)
        requires
            self.wf(),
            self.coherent(m),
            0 <= s < 64,
        ensures
            self.eviction_fits(s, m.len() as int),
    {
        self.lemma_victim_in_range(s);
        if self.victim_dirty(s) {
            assert(self.line(s, self.victim(s)).valid);
        }
    }

    /// A well-formed cache finds a tag in the one way that holds it.
    proof fn lemma_find_way(&self, s: int, w: int, t: int)
        requires
            self.wf(),
            0 <= s < 64,
            0 <= w < 4,
            self.holds(s, w, t),
        ensures
            self.find_way(s, t) == w,
    {
        assert(self.line(s, 0).valid ==> self.line(s, 0).tag != t || w == 0);
        assert(self.line(s, 1).valid ==> self.line(s, 1).tag != t || w == 1);
        assert(self.line(s, 2).valid ==> self.line(s, 2).tag != t || w == 2);
    }

    /// Two caches whose lines agree in all but their access times are equally
    /// coherent, show the same contents and hit the same addresses; with the
    /// same access times and counter they are equally well-formed.
    proof fn lemma_same_but_times(&self, other: &Cache, m: Seq<u8>)
        requires
            forall|s: int, w: int|
                #![trigger self.line(s, w)]
                #![trigger other.line(s, w)]
                0 <= s < 64 && 0 <= w < 4 ==> {
                    &&& self.line(s, w).valid == other.line(s, w).valid
                    &&& self.line(s, w).dirty == other.line(s, w).dirty
                    &&& self.line(s, w).tag == other.line(s, w).tag
                    &&& self.line(s, w).data == other.line(s, w).data
                },
        ensures
            (forall|s: int, w: int|
                0 <= s < 64 && 0 <= w < 4 ==> #[trigger] self.line(s, w).access_time == other.line(
                    s,
                    w,
                ).access_time) && self.counter() == other.counter() ==> self.wf() == other.wf(),
            self.coherent(m) == other.coherent(m),
            self.contents(m) == other.contents(m),
            forall|a: int| 0 <= a ==> #[trigger] self.is_hit(a) == other.is_hit(a),
    {
        assert forall|a: int| 0 <= a implies self.is_hit(a) == other.is_hit(a) && self.find_way(
            set_of(a),
            tag_of(a),
        ) == other.find_way(set_of(a), tag_of(a)) by {
            lemma_address_split(a);
        }
        assert forall|b: int| 0 <= b < m.len() implies self.cached_byte(m, b)
            == other.cached_byte(m, b) by {
            lemma_address_split(b);
        }
        assert(self.contents(m) =~= other.contents(m));
    }

    /// Replacing a line that is invalid or equal to memory by the line of a
    /// tag the set did not hold, filled from memory, keeps the cache
    /// well-formed and coherent and its contents unchanged.
    proof fn lemma_install_keeps_view(&self, c2: &Cache, m: Seq<u8>, s: int, v: int, t: int)
        requires
            c2.wf(),
            self.wf(),
            self.coherent(m),
            0 <= s < 64,
            0 <= v < 4,
            0 <= t < 0x20_0000,
            forall|w: int| 0 <= w < 4 ==> !#[trigger] self.holds(s, w, t),
            self.line(s, v).valid ==> self.line(s, v).data@ == m.subrange(
                line_base(s, self.line(s, v).tag as int),
                line_base(s, self.line(s, v).tag as int) + 32,
            ),
            line_base(s, t) + 32 <= m.len(),
            c2.same_lines_except(self, s, v),
            c2.line(s, v).valid,
            !c2.line(s, v).dirty,
            c2.line(s, v).tag == t,
            c2.line(s, v).data@ == m.subrange(line_base(s, t), line_base(s, t) + 32),
        ensures
            c2.wf(),
            c2.coherent(m),
            c2.contents(m) == self.contents(m),
    {
        let old_tag = self.line(s, v).tag as int;
        let old_valid = self.line(s, v).valid;
        assert forall|b: int| 0 <= b < m.len() implies c2.cached_byte(m, b) == self.cached_byte(
            m,
            b,
        ) by {
            lemma_address_split(b);
            let sb = set_of(b);
            let tb = tag_of(b);
            if sb == s && tb == t {
                c2.lemma_find_way(s, v, t);
                assert(c2.line(s, v).data@[offset_of(b)] == m[b]);
            } else if sb == s && old_valid && tb == old_tag {
                self.lemma_find_way(s, v, tb);
                assert(self.line(s, v).data@[offset_of(b)] == m[b]);
                assert(!c2.holds(s, 0, tb) && !c2.holds(s, 1, tb) && !c2.holds(s, 2, tb) && !c2.holds(s, 3, tb));
            } else if sb == s {
                assert(!c2.holds(s, v, tb) && !self.holds(s, v, tb));
                assert(c2.find_way(s, tb) == self.find_way(s, tb));
            } else {
                assert(c2.find_way(sb, tb) == self.find_way(sb, tb));
            }
        }
        assert(c2.contents(m) =~= self.contents(m));
    }

    /// Storing a byte into a valid line marks it dirty and changes exactly
    /// that byte of the contents.
    proof fn lemma_store_keeps_view(
        &self,
        c2: &Cache,
        m: Seq<u8>,
        s: int,
        w: int,
        o: int,
        val: u8,
    )
        requires
            c2.wf(),
            self.wf(),
            self.coherent(m),
            0 <= s < 64,
            0 <= w < 4,
            0 <= o < 32,
            self.line(s, w).valid,
            c2.same_lines_except(self, s, w),
            c2.line(s, w).valid,
            c2.line(s, w).dirty,
            c2.line(s, w).tag == self.line(s, w).tag,
            c2.line(s, w).data@ == self.line(s, w).data@.update(o, val),
        ensures
            c2.wf(),
            c2.coherent(m),
            c2.contents(m) == self.contents(m).update(
                line_base(s, self.line(s, w).tag as int) + o,
                val,
            ),
    {
        let t = self.line(s, w).tag as int;
        let a = line_base(s, t) + o;
        assert(a < m.len());
        assert forall|b: int| 0 <= b < m.len() implies c2.cached_byte(m, b) == (if b == a {
            val
        } else {
            self.cached_byte(m, b)
        }) by {
            lemma_address_split(b);
            let sb = set_of(b);
            let tb = tag_of(b);
            if sb == s && tb == t {
                c2.lemma_find_way(s, w, t);
                self.lemma_find_way(s, w, t);
                lemma_in_line(s, t, a);
            } else {
                assert(c2.find_way(sb, tb) == self.find_way(sb, tb));
                if b == a {
                    lemma_in_line(s, t, a);
                }
            }
        }
        assert(c2.contents(m) =~= self.contents(m).update(a, val));
    }

    /// Writing back a dirty valid line keeps the cache coherent and its
    /// contents unchanged, and leaves the line equal to memory.
    proof fn lemma_writeback_keeps_view(&self, m: Seq<u8>, s: int, v: int)
        requires
            self.wf(),
            self.coherent(m),
            0 <= s < 64,
            0 <= v < 4,
            self.line(s, v).valid,
        ensures
            ({
                let base = line_base(s, self.line(s, v).tag as int);
                let m1 = write_block(m, base, self.line(s, v).data@);
                &&& self.coherent(m1)
                &&& self.contents(m1) == self.contents(m)
                &&& self.line(s, v).data@ == m1.subrange(base, base + 32)
            }),
    {
        let t = self.line(s, v).tag as int;
        let base = line_base(s, t);
        let m1 = write_block(m, base, self.line(s, v).data@);
        assert(base + 32 <= m.len());
        assert forall|s2: int, w2: int|
            0 <= s2 < 64 && 0 <= w2 < 4 && (#[trigger] self.line(s2, w2)).valid && !self.line(
                s2,
                w2,
            ).dirty implies self.line(s2, w2).data@ == m1.subrange(
            line_base(s2, self.line(s2, w2).tag as int),
            line_base(s2, self.line(s2, w2).tag as int) + 32,
        ) by {
            let t2 = self.line(s2, w2).tag as int;
            let b2 = line_base(s2, t2);
            if s2 == s && t2 == t {
                assert(w2 == v);
                assert(self.line(s2, w2).data@ =~= m1.subrange(b2, b2 + 32));
            } else {
                assert forall|i: int| b2 <= i < b2 + 32 implies m1[i] == m[i] by {
                    if base <= i < base + 32 {
                        lemma_in_line(s, t, i);
                        lemma_in_line(s2, t2, i);
                    }
                }
                assert(m1.subrange(b2, b2 + 32) =~= m.subrange(b2, b2 + 32));
            }
        }
        assert forall|b: int| 0 <= b < m.len() implies self.cached_byte(m1, b)
            == self.cached_byte(m, b) by {
            lemma_address_split(b);
            if base <= b < base + 32 {
                lemma_in_line(s, t, b);
                self.lemma_find_way(s, v, t);
            }
        }
        assert(self.contents(m1) =~= self.contents(m));
        assert(self.line(s, v).data@ =~= m1.subrange(base, base + 32));
    }
}

impl CacheLine {
    /// An invalid, clean, zeroed line.
    pub fn new() -> (r: Self)
        ensures
            !r.valid,
            !r.dirty,
            r.tag == 0,
            r.access_time == 0,
            r.data@ == Seq::new(32, |i: int| 0u8),
    {
        let r = CacheLine { valid: false, dirty: false, tag: 0, data: [0u8; CACHE_LINE_SIZE], access_time: 0 };
        assert(r.data@ =~= Seq::new(32, |i: int| 0u8));
        r
    }
}

impl CacheSet {
    /// A set of four invalid lines.
    pub fn new() -> (r: Self)
        ensures
            forall|w: int| 0 <= w < 4 ==> !(#[trigger] r.lines[w]).valid && !r.lines[w].dirty,
    {
        let line = CacheLine::new();
        CacheSet { lines: [line; CACHE_WAYS] }
    }
}

impl Cache {
    /// All lines are the same in both caches.
    pub open spec fn same_lines(&self, other: &Cache) -> bool {
        forall|s: int, w: int| 0 <= s < 64 && 0 <= w < 4 ==> #[trigger] self.line(s, w) == other.line(s, w)
    }

    /// Each counter of `self` lies between its value in `old` and `n` more.
    pub open spec fn grew_within(&self, old: &Cache, n: int) -> bool {
        &&& old.counter() <= self.counter() <= old.counter() + n
        &&& old.spec_stats().hits <= self.spec_stats().hits <= old.spec_stats().hits + n
        &&& old.spec_stats().misses <= self.spec_stats().misses <= old.spec_stats().misses + n
        &&& old.spec_stats().writebacks <= self.spec_stats().writebacks <= old.spec_stats().writebacks + n
    }

    /// `c2` is `self` after a use of way `w` of set `s`: the line is stamped
    /// with the counter, which then advances.
    pub open spec fn touched(&self, c2: &Cache, s: int, w: int) -> bool {
        &&& c2.same_lines_except(self, s, w)
        &&& c2.line(s, w) == (CacheLine { access_time: self.counter(), ..self.line(s, w) })
        &&& c2.counter() == self.counter() + 1
    }

    /// Whether the victim of set `s` is dirty and so is written back on a miss.
    pub open spec fn victim_dirty(&self, s: int) -> bool {
        self.line(s, self.victim(s)).dirty
    }

    /// The first address of the victim's line in set `s`.
    pub open spec fn victim_base(&self, s: int) -> int {
        line_base(s, self.line(s, self.victim(s)).tag as int)
    }

    /// Memory after the victim of set `s` is written back, when it is dirty.
    pub open spec fn after_eviction(&self, s: int, m: Seq<u8>) -> Seq<u8> {
        if self.victim_dirty(s) {
            write_block(m, self.victim_base(s), self.line(s, self.victim(s)).data@)
        } else {
            m
        }
    }

    /// Whether evicting the victim of set `s` stays inside `len` bytes.
    pub open spec fn eviction_fits(&self, s: int, len: int) -> bool {
        self.victim_dirty(s) ==> self.victim_base(s) + 32 <= len
    }

    /// The fault that a miss on `a` raises when it raises one.
    pub open spec fn miss_fault(&self, a: int, len: int) -> MemoryError {
        if !self.eviction_fits(set_of(a), len) {
            MemoryError::AddressOutOfRange(first_fault(self.victim_base(set_of(a)), len))
        } else {
            MemoryError::AddressOutOfRange(first_fault(line_base_of(a), len))
        }
    }

    /// Statistics after a miss in set `s` that got past eviction or not.
    pub open spec fn miss_stats(&self, s: int, evicted: bool) -> CacheStats {
        CacheStats {
            misses: (self.spec_stats().misses + 1) as u64,
            writebacks: if evicted && self.victim_dirty(s) {
                (self.spec_stats().writebacks + 1) as u64
            } else {
                self.spec_stats().writebacks
            },
            ..self.spec_stats()
        }
    }

    /// `c2` is `self` with way `w` of set `s` replaced by a valid line of tag
    /// `t` holding `data`, with the given dirty bit, stamped with the counter,
    /// which then advances.
    pub open spec fn placed(&self, c2: &Cache, s: int, w: int, t: int, data: Seq<u8>, dirty: bool) -> bool {
        let l = c2.line(s, w);
        &&& l.valid
        &&& l.dirty == dirty
        &&& l.tag == t
        &&& l.data@ == data
        &&& l.access_time == self.counter()
        &&& c2.same_lines_except(self, s, w)
        &&& c2.counter() == self.counter() + 1
    }

    /// Memory with every dirty line of the ways before `k` (in set-major
    /// order) written back.
    pub open spec fn written_back_upto(&self, m: Seq<u8>, k: int) -> Seq<u8> {
        Seq::new(
            m.len(),
            |b: int|
                {
                    let sb = set_of(b);
                    let w = self.find_way(sb, tag_of(b));
                    if w < 4 && sb * 4 + w < k && self.line(sb, w).dirty {
                        self.line(sb, w).data@[offset_of(b)]
                    } else {
                        m[b]
                    }
                },
        )
    }

    /// The number of dirty lines among the ways before `k` (in set-major
    /// order).
    pub open spec fn dirty_count_upto(&self, k: int) -> nat
        decreases k,
    {
        if k <= 0 {
            0
        } else {
            self.dirty_count_upto(k - 1) + if self.line((k - 1) / 4, (k - 1) % 4).dirty {
                1nat
            } else {
                0nat
            }
        }
    }

    /// The number of dirty lines.
    pub open spec fn dirty_count(&self) -> nat {
        self.dirty_count_upto(256)
    }

    /// Whether every dirty line lies inside `len` bytes.
    pub open spec fn dirty_lines_fit(&self, len: int) -> bool {
        forall|s: int, w: int|
            0 <= s < 64 && 0 <= w < 4 && (#[trigger] self.line(s, w)).dirty ==> line_base(
                s,
                self.line(s, w).tag as int,
            ) + 32 <= len
    }

    /// `new`, memory `m2` and `r` are what `read_byte` of address `a` on
    /// `self` with memory `m` gives: on a hit, the byte of the line, which is
    /// stamped; on a miss, the least recently used way is written back if
    /// dirty and filled with the line of `a`, or the fault of memory.
    #[verifier::opaque]
    pub open spec fn byte_read(&self, new: &Cache, m: Seq<u8>, m2: Seq<u8>, a: int, r: Result<u8, MemoryError>) -> bool {
        &&& {
                let s = set_of(a);
                let w = self.find_way(s, tag_of(a));
                &&& self.is_hit(a) ==> {
                    &&& r == Ok::<u8, MemoryError>(self.line(s, w).data@[offset_of(a)])
                    &&& self.touched(new, s, w)
                    &&& new.spec_stats() == (CacheStats {
                        hits: (self.spec_stats().hits + 1) as u64,
                        ..self.spec_stats()
                    })
                    &&& m2 == m
                }
        }
        &&& {
                let s = set_of(a);
                let len = m.len() as int;
                let m1 = self.after_eviction(s, m);
                &&& !self.is_hit(a) ==> {
                    &&& m2 == m1
                    &&& new.spec_stats() == self.miss_stats(s, self.eviction_fits(s, len))
                    &&& (r is Ok <==> self.eviction_fits(s, len) && line_fits(a, len))
                    &&& r is Ok ==> r == Ok::<u8, MemoryError>(m1[a]) && self.placed(
                        new,
                        s,
                        self.victim(s),
                        tag_of(a),
                        m1.subrange(line_base_of(a), line_base_of(a) + 32),
                        false,
                    )
                    &&& r is Err ==> r == Err::<u8, MemoryError>(self.miss_fault(a, len))
                        && new.same_lines(self) && new.counter() == self.counter()
                }
        }
    }

    /// `new`, memory `m2` and `r` are what `write_byte` of `value` at
    /// address `a` on `self` with memory `m` gives: on a hit, the byte is stored in
    /// the line, which is stamped and marked dirty; on a miss, the least
    /// recently used way is written back if dirty, filled with the line of
    /// `a`, and then stored into; or the fault of memory.
    #[verifier::opaque]
    pub open spec fn byte_written(&self, new: &Cache, m: Seq<u8>, m2: Seq<u8>, a: int, value: u8, r: Result<(), MemoryError>) -> bool {
        &&& {
                let s = set_of(a);
                let w = self.find_way(s, tag_of(a));
                &&& self.is_hit(a) ==> {
                    &&& r is Ok
                    &&& self.placed(
                        new,
                        s,
                        w,
                        tag_of(a),
                        self.line(s, w).data@.update(offset_of(a), value),
                        true,
                    )
                    &&& new.spec_stats() == (CacheStats {
                        hits: (self.spec_stats().hits + 1) as u64,
                        ..self.spec_stats()
                    })
                    &&& m2 == m
                }
        }
        &&& {
                let s = set_of(a);
                let len = m.len() as int;
                let m1 = self.after_eviction(s, m);
                &&& !self.is_hit(a) ==> {
                    &&& m2 == m1
                    &&& new.spec_stats() == self.miss_stats(s, self.eviction_fits(s, len))
                    &&& (r is Ok <==> self.eviction_fits(s, len) && line_fits(a, len))
                    &&& r is Ok ==> self.placed(
                        new,
                        s,
                        self.victim(s),
                        tag_of(a),
                        m1.subrange(line_base_of(a), line_base_of(a) + 32).update(offset_of(a), value),
                        true,
                    )
                    &&& r is Err ==> r == Err::<(), MemoryError>(self.miss_fault(a, len))
                        && new.same_lines(self) && new.counter() == self.counter()
                }
        }
    }

    /// `new`, memory `m2` and `w` are what four successful `read_byte`s of
    /// the bytes at `a` to `a + 3` give, in that order, each on what the one
    /// before left; `w` is the little-endian word of the four bytes.
    pub open spec fn word_read(&self, new: &Cache, m: Seq<u8>, m2: Seq<u8>, a: int, w: u32) -> bool {
        exists|c1: Cache, c2: Cache, c3: Cache, m1: Seq<u8>, ma: Seq<u8>, mb: Seq<u8>, b0: u8, b1: u8, b2: u8, b3: u8|
            #![trigger self.byte_read(&c1, m, m1, a, Ok::<u8, MemoryError>(b0)), c1.byte_read(&c2, m1, ma, a + 1, Ok::<u8, MemoryError>(b1)), c2.byte_read(&c3, ma, mb, a + 2, Ok::<u8, MemoryError>(b2)), c3.byte_read(new, mb, m2, a + 3, Ok::<u8, MemoryError>(b3))]
            {
                &&& self.byte_read(&c1, m, m1, a, Ok::<u8, MemoryError>(b0))
                &&& c1.byte_read(&c2, m1, ma, a + 1, Ok::<u8, MemoryError>(b1))
                &&& c2.byte_read(&c3, ma, mb, a + 2, Ok::<u8, MemoryError>(b2))
                &&& c3.byte_read(new, mb, m2, a + 3, Ok::<u8, MemoryError>(b3))
                &&& w == word_of_bytes(b0, b1, b2, b3)
            }
    }

    /// `new` and memory `m2` are what four successful `write_byte`s of the
    /// little-endian bytes of `v` at `a` to `a + 3` give, in that order, each
    /// on what the one before left.
    pub open spec fn word_written(&self, new: &Cache, m: Seq<u8>, m2: Seq<u8>, a: int, v: u32) -> bool {
        exists|c1: Cache, c2: Cache, c3: Cache, m1: Seq<u8>, ma: Seq<u8>, mb: Seq<u8>, r0: Result<(), MemoryError>, r1: Result<(), MemoryError>, r2: Result<(), MemoryError>, r3: Result<(), MemoryError>|
            #![trigger self.byte_written(&c1, m, m1, a, byte_of(v, 0), r0), c1.byte_written(&c2, m1, ma, a + 1, byte_of(v, 1), r1), c2.byte_written(&c3, ma, mb, a + 2, byte_of(v, 2), r2), c3.byte_written(new, mb, m2, a + 3, byte_of(v, 3), r3)]
            {
                &&& self.byte_written(&c1, m, m1, a, byte_of(v, 0), r0) && r0 is Ok
                &&& c1.byte_written(&c2, m1, ma, a + 1, byte_of(v, 1), r1) && r1 is Ok
                &&& c2.byte_written(&c3, ma, mb, a + 2, byte_of(v, 2), r2) && r2 is Ok
                &&& c3.byte_written(new, mb, m2, a + 3, byte_of(v, 3), r3) && r3 is Ok
            }
    }

    /// An empty cache with zeroed statistics.
    pub fn new() -> (r: Self)
        ensures
            r.wf(),
            r.is_empty(),
            forall|s: int, w: int| 0 <= s < 64 && 0 <= w < 4 ==> !(#[trigger] r.line(s, w)).dirty,
            r.counter() == 0,
            r.spec_stats() == (CacheStats { hits: 0, misses: 0, writebacks: 0 }),
    {
        let set = CacheSet::new();
        let r = Cache {
            sets: [set; CACHE_SETS],
            stats: CacheStats { hits: 0, misses: 0, writebacks: 0 },
            access_counter: 0,
        };
        assert forall|s: int, w: int| 0 <= s < 64 && 0 <= w < 4 implies !(#[trigger] r.line(s, w)).valid && !r.line(s, w).dirty by {
            assert(r.sets[s] == set);
        }
        r
    }

    fn get_set_index(&self, address: MemoryAddress) -> (r: usize)
        ensures
            r == set_of(address as int),
            r < 64,
    {
        ((address as usize) / CACHE_LINE_SIZE) % CACHE_SETS
    }

    fn get_tag(&self, address: MemoryAddress) -> (r: u32)
        ensures
            r == tag_of(address as int),
    {
        (address / 32) / 64
    }

    fn get_offset(&self, address: MemoryAddress) -> (r: usize)
        ensures
            r == offset_of(address as int),
            r < 32,
    {
        (address as usize) % CACHE_LINE_SIZE
    }

    fn put_line(&mut self, s: usize, w: usize, line: CacheLine)
        requires
            s < 64,
            w < 4,
        ensures
            final(self).line(s as int, w as int) == line,
            final(self).same_lines_except(old(self), s as int, w as int),
            final(self).counter() == old(self).counter(),
            final(self).spec_stats() == old(self).spec_stats(),
    {
        let mut set = self.sets[s];
        set.lines[w] = line;
        self.sets[s] = set;
    }

    /// Looks up tag `tag` in set `set_index`; when found, stamps the line.
    fn find_line(&mut self, set_index: usize, tag: u32) -> (r: Option<usize>)
        requires
            set_index < 64,
            old(self).counter() < u64::MAX,
        ensures
            r == (if old(self).find_way(set_index as int, tag as int) < 4 {
                Some(old(self).find_way(set_index as int, tag as int) as usize)
            } else {
                None::<usize>
            }),
            r is Some ==> old(self).touched(final(self), set_index as int, r->Some_0 as int),
            r is None ==> *final(self) == *old(self),
            final(self).spec_stats() == old(self).spec_stats(),
    {
        let mut i: usize = 0;
        while i < CACHE_WAYS
            invariant
                i <= 4,
                set_index < 64,
                *self == *old(self),
                old(self).counter() < u64::MAX,
                forall|j: int| 0 <= j < i ==> !#[trigger] old(self).holds(set_index as int, j, tag as int),
            decreases 4 - i,
        {
            let line = self.sets[set_index].lines[i];
            if line.valid && line.tag == tag {
                let mut stamped = line;
                stamped.access_time = self.access_counter;
                self.access_counter = self.access_counter + 1;
                self.put_line(set_index, i, stamped);
                return Some(i);
            }
            i = i + 1;
        }
        None
    }

    /// The way a miss in set `set_index` replaces.
    fn select_lru_line(&self, set_index: usize) -> (r: usize)
        requires
            set_index < 64,
        ensures
            r < 4,
            r == self.victim(set_index as int),
    {
        let ghost lines = self.set_lines(set_index as int);
        let ways = self.sets[set_index].lines;
        assert(forall|j: int| 0 <= j < 4 ==> #[trigger] lines[j] == ways[j]);
        let mut lru_index: usize = 0;
        let mut oldest = ways[0].access_time;
        let mut i: usize = 0;
        while i < CACHE_WAYS
            invariant
                i <= 4,
                lru_index < 4,
                i > 0 ==> lru_index < i,
                i == 0 ==> lru_index == 0,
                lines.len() == 4,
                lines == self.set_lines(set_index as int),
                forall|j: int| 0 <= j < 4 ==> #[trigger] lines[j] == ways[j],
                forall|j: int| 0 <= j < i ==> (#[trigger] lines[j]).valid,
                oldest == ways[lru_index as int].access_time,
                forall|j: int|
                    0 <= j < i ==> oldest <= (#[trigger] lines[j]).access_time && (j < lru_index
                        ==> lines[j].access_time != oldest),
            decreases 4 - i,
        {
            if !ways[i].valid {
                proof {
                    assert(!lines[i as int].valid);
                    assert(is_lru_victim(lines, i as int));
                    lemma_lru_way(lines, i as int);
                }
                return i;
            }
            if ways[i].access_time < oldest {
                oldest = ways[i].access_time;
                lru_index = i;
            }
            i = i + 1;
        }
        proof {
            assert(!exists|v: int| 0 <= v < lines.len() && !(#[trigger] lines[v]).valid);
            assert(is_lru_victim(lines, lru_index as int));
            lemma_lru_way(lines, lru_index as int);
        }
        lru_index
    }

    /// Writes way `way_index` of set `set_index` back to memory if it is dirty.
    fn writeback_line(&mut self, memory: &mut Memory, set_index: usize, way_index: usize) -> (r:
        Result<(), MemoryError>)
        requires
            old(self).wf(),
            old(memory).wf(),
            set_index < 64,
            way_index < 4,
            old(self).spec_stats().writebacks < u64::MAX,
        ensures
            final(memory).wf(),
            final(self).same_lines(old(self)),
            final(self).counter() == old(self).counter(),
            ({
                let l = old(self).line(set_index as int, way_index as int);
                let base = line_base(set_index as int, l.tag as int);
                let len = old(memory)@.len() as int;
                &&& !l.dirty ==> r is Ok && final(memory)@ == old(memory)@ && *final(self) == *old(self)
                &&& l.dirty ==> final(memory)@ == write_block(old(memory)@, base, l.data@)
                &&& l.dirty && base + 32 <= len ==> r is Ok && final(self).spec_stats() == (CacheStats {
                    writebacks: (old(self).spec_stats().writebacks + 1) as u64,
                    ..old(self).spec_stats()
                })
                &&& l.dirty && base + 32 > len ==> r == Err::<(), MemoryError>(
                    MemoryError::AddressOutOfRange(first_fault(base, len)),
                ) && final(self).spec_stats() == old(self).spec_stats()
            }),
    {
        let line = self.sets[set_index].lines[way_index];
        if !line.dirty {
            return Ok(());
        }
        let ghost m0 = memory@;
        let ghost len = m0.len() as int;
        let base: u32 = (line.tag * 64 + set_index as u32) * 32;
        let ghost gbase = line_base(set_index as int, line.tag as int);
        assert(base == gbase);
        let mut i: u32 = 0;
        while i < 32
            invariant
                i <= 32,
                base == gbase,
                set_index < 64,
                way_index < 4,
                line == old(self).line(set_index as int, way_index as int),
                line.dirty,
                gbase == line_base(set_index as int, line.tag as int),
                *self == *old(self),
                m0 == old(memory)@,
                gbase + 32 <= 0x1_0000_0000,
                memory.wf(),
                memory@.len() == len,
                m0.len() == len,
                i == 0 || gbase + i <= len,
                forall|b: int|
                    0 <= b < len ==> #[trigger] memory@[b] == if gbase <= b < gbase + i {
                        line.data@[b - gbase]
                    } else {
                        m0[b]
                    },
            decreases 32 - i,
        {
            match memory.write_byte(base + i, line.data[i as usize]) {
                Err(e) => {
                    assert(gbase + i >= len);
                    assert(gbase + 32 > len);
                    assert(memory@ =~= write_block(m0, gbase, line.data@));
                    return Err(e);
                },
                Ok(()) => {},
            }
            i = i + 1;
        }
        assert(memory@ =~= write_block(m0, gbase, line.data@));
        self.stats.writebacks = self.stats.writebacks + 1;
        Ok(())
    }

    /// Fills way `way_index` of set `set_index` with the line of tag `tag`
    /// from memory, valid and clean, and stamps it. Changes nothing on a fault.
    fn load_line(&mut self, memory: &Memory, set_index: usize, way_index: usize, tag: u32) -> (r:
        Result<(), MemoryError>)
        requires
            memory.wf(),
            set_index < 64,
            way_index < 4,
            tag < 0x20_0000,
            old(self).counter() < u64::MAX,
        ensures
            line_base(set_index as int, tag as int) + 32 <= memory@.len() ==> r is Ok,
            line_base(set_index as int, tag as int) + 32 <= memory@.len() ==> old(self).placed(
                final(self),
                set_index as int,
                way_index as int,
                tag as int,
                memory@.subrange(
                    line_base(set_index as int, tag as int),
                    line_base(set_index as int, tag as int) + 32,
                ),
                false,
            ),
            line_base(set_index as int, tag as int) + 32 > memory@.len() ==> r == Err::<
                (),
                MemoryError,
            >(
                MemoryError::AddressOutOfRange(
                    first_fault(line_base(set_index as int, tag as int), memory@.len() as int),
                ),
            ) && *final(self) == *old(self),
            final(self).spec_stats() == old(self).spec_stats(),
    {
        let ghost gbase = line_base(set_index as int, tag as int);
        let ghost len = memory@.len() as int;
        let base: u32 = (tag * 64 + set_index as u32) * 32;
        let mut data = [0u8; CACHE_LINE_SIZE];
        let mut i: u32 = 0;
        while i < 32
            invariant
                i <= 32,
                base == gbase,
                gbase == line_base(set_index as int, tag as int),
                gbase + 32 <= 0x1_0000_0000,
                memory@.len() == len,
                i == 0 || gbase + i <= len,
                forall|j: int| 0 <= j < i ==> #[trigger] data@[j] == memory@[gbase + j],
            decreases 32 - i,
        {
            match memory.read_byte(base + i) {
                Err(e) => {
                    assert(gbase + i >= len);
                    assert(gbase + 32 > len);
                    return Err(e);
                },
                Ok(b) => {
                    data[i as usize] = b;
                },
            }
            i = i + 1;
        }
        assert(data@ =~= memory@.subrange(gbase, gbase + 32));
        let line = CacheLine {
            valid: true,
            dirty: false,
            tag,
            data,
            access_time: self.access_counter,
        };
        self.access_counter = self.access_counter + 1;
        self.put_line(set_index, way_index, line);
        Ok(())
    }

    /// Replacing one line keeps the cache well-formed when the new line, if
    /// valid, has a fitting tag no other valid way of its set holds.
    proof fn lemma_replace_wf(&self, c2: &Cache, s: int, w: int)
        requires
            self.wf(),
            0 <= s < 64,
            0 <= w < 4,
            c2.same_lines_except(self, s, w),
            !c2.line(s, w).valid ==> !c2.line(s, w).dirty,
            c2.line(s, w).valid ==> c2.line(s, w).tag < 0x20_0000,
            c2.line(s, w).valid ==> forall|w2: int|
                0 <= w2 < 4 && w2 != w ==> !#[trigger] self.holds(s, w2, c2.line(s, w).tag as int),
            c2.counter() >= self.counter(),
            c2.line(s, w).valid ==> c2.line(s, w).access_time < c2.counter(),
            c2.line(s, w).valid ==> c2.line(s, w).access_time >= self.counter() || (self.line(
                s,
                w,
            ).valid && c2.line(s, w).access_time == self.line(s, w).access_time),
        ensures
            c2.wf(),
    {
        assert forall|s2: int, w1: int, w2: int|
            0 <= s2 < 64 && 0 <= w1 < 4 && 0 <= w2 < 4 && w1 != w2 && (#[trigger] c2.line(
                s2,
                w1,
            )).valid && (#[trigger] c2.line(s2, w2)).valid implies c2.line(s2, w1).tag != c2.line(
            s2,
            w2,
        ).tag && c2.line(s2, w1).access_time != c2.line(s2, w2).access_time by {
            if s2 == s && w1 == w {
                assert(!self.holds(s, w2, c2.line(s, w).tag as int));
                assert(self.line(s, w2).valid);
            } else if s2 == s && w2 == w {
                assert(!self.holds(s, w1, c2.line(s, w).tag as int));
                assert(self.line(s, w1).valid);
            } else {
                assert(self.line(s2, w1).valid && self.line(s2, w2).valid);
            }
        }
        assert forall|s2: int, w2: int|
            0 <= s2 < 64 && 0 <= w2 < 4 && (#[trigger] c2.line(s2, w2)).valid implies c2.line(
            s2,
            w2,
        ).access_time < c2.counter() by {
            if !(s2 == s && w2 == w) {
                assert(self.line(s2, w2).valid);
            }
        }
    }

    fn count_hit(&mut self)
        requires
            old(self).spec_stats().hits < u64::MAX,
        ensures
            final(self).same_lines(old(self)),
            final(self).counter() == old(self).counter(),
            final(self).spec_stats() == (CacheStats {
                hits: (old(self).spec_stats().hits + 1) as u64,
                ..old(self).spec_stats()
            }),
    {
        self.stats.hits = self.stats.hits + 1;
    }

    /// Stores `value` at offset `offset` of way `way_index` of set `set_index`
    /// and marks the line dirty.
    fn store_byte(&mut self, set_index: usize, way_index: usize, offset: usize, value: u8)
        requires
            set_index < 64,
            way_index < 4,
            offset < 32,
        ensures
            ({
                let l = old(self).line(set_index as int, way_index as int);
                let n = final(self).line(set_index as int, way_index as int);
                &&& n.valid == l.valid
                &&& n.dirty
                &&& n.tag == l.tag
                &&& n.access_time == l.access_time
                &&& n.data@ == l.data@.update(offset as int, value)
            }),
            final(self).same_lines_except(old(self), set_index as int, way_index as int),
            final(self).counter() == old(self).counter(),
            final(self).spec_stats() == old(self).spec_stats(),
    {
        let mut line = self.sets[set_index].lines[way_index];
        line.data[offset] = value;
        line.dirty = true;
        self.put_line(set_index, way_index, line);
    }

    /// Handles a miss on `address`: counts it, writes the victim back if it
    /// is dirty and fills its way with the line of `address`. Returns the way.
    fn miss_fill(&mut self, memory: &mut Memory, address: MemoryAddress) -> (r: Result<
        usize,
        MemoryError,
    >)
        requires
            old(self).wf(),
            old(self).headroom(1),
            old(memory).wf(),
            !old(self).is_hit(address as int),
        ensures
            final(self).wf(),
            final(memory).wf(),
            ({
                let a = address as int;
                let s = set_of(a);
                let len = old(memory)@.len() as int;
                let m1 = old(self).after_eviction(s, old(memory)@);
                &&& final(memory)@ == m1
                &&& final(self).spec_stats() == old(self).miss_stats(s, old(self).eviction_fits(s, len))
                &&& (r is Ok <==> old(self).eviction_fits(s, len) && line_fits(a, len))
                &&& r is Ok ==> r->Ok_0 < 4 && r->Ok_0 == old(self).victim(s) && old(self).placed(
                    final(self),
                    s,
                    old(self).victim(s),
                    tag_of(a),
                    m1.subrange(line_base_of(a), line_base_of(a) + 32),
                    false,
                )
                &&& r is Err ==> r == Err::<usize, MemoryError>(old(self).miss_fault(a, len))
                    && final(self).same_lines(old(self)) && final(self).counter() == old(self).counter()
                &&& old(self).coherent(old(memory)@) ==> {
                    &&& final(self).coherent(final(memory)@)
                    &&& final(self).contents(final(memory)@) == old(self).contents(old(memory)@)
                    &&& (r is Ok <==> line_fits(a, len))
                }
            }),
    {
        let ghost c0 = *self;
        let ghost m0 = memory@;
        let set_index = self.get_set_index(address);
        let tag = self.get_tag(address);
        proof {
            lemma_address_split(address as int);
            lemma_tag_bound(address);
        }
        self.stats.misses = self.stats.misses + 1;
        let way_index = self.select_lru_line(set_index);
        assert(way_index == c0.victim(set_index as int));
        let victim = self.sets[set_index].lines[way_index];
        assert(victim == c0.line(set_index as int, way_index as int));
        if victim.valid && victim.dirty {
            proof {
                c0.lemma_same_but_times(self, m0);
                if c0.coherent(m0) {
                    c0.lemma_writeback_keeps_view(m0, set_index as int, way_index as int);
                }
            }
            match self.writeback_line(memory, set_index, way_index) {
                Err(e) => {
                    proof {
                        c0.lemma_same_but_times(self, m0);
                        c0.lemma_same_but_times(self, memory@);
                    }
                    return Err(e);
                },
                Ok(()) => {},
            }
        } else {
            assert(!c0.victim_dirty(set_index as int));
        }
        let ghost c1 = *self;
        let ghost m1 = memory@;
        assert(m1 == c0.after_eviction(set_index as int, m0));
        proof {
            c0.lemma_same_but_times(&c1, m1);
            c0.lemma_same_but_times(&c1, m0);
            if c0.coherent(m0) && victim.valid && !victim.dirty {
                assert(victim.data@ == m0.subrange(
                    line_base(set_index as int, victim.tag as int),
                    line_base(set_index as int, victim.tag as int) + 32,
                ));
            }
        }
        match self.load_line(memory, set_index, way_index, tag) {
            Err(e) => {
                return Err(e);
            },
            Ok(()) => {},
        }
        proof {
            assert forall|w2: int| 0 <= w2 < 4 && w2 != way_index implies !#[trigger] c1.holds(
                set_index as int,
                w2,
                tag as int,
            ) by {
                assert(!c0.holds(set_index as int, w2, tag as int));
            }
            c1.lemma_replace_wf(self, set_index as int, way_index as int);
            if c0.coherent(m0) {
                assert forall|w: int| 0 <= w < 4 implies !#[trigger] c1.holds(
                    set_index as int,
                    w,
                    tag as int,
                ) by {
                    assert(!c0.holds(set_index as int, w, tag as int));
                }
                c1.lemma_install_keeps_view(self, m1, set_index as int, way_index as int, tag as int);
            }
        }
        Ok(way_index)
    }

    /// Reads the byte at `address` through the cache. A hit stamps the line;
    /// a miss writes the least recently used line of the set back if it is
    /// dirty and fills its way from memory. A fault of memory is passed on.
    pub fn read_byte(&mut self, memory: &mut Memory, address: MemoryAddress) -> (r: Result<
        u8,
        MemoryError,
    >)
        requires
            old(self).wf(),
            old(self).headroom(1),
            old(memory).wf(),
        ensures
            final(self).wf(),
            final(memory).wf(),
            final(memory)@.len() == old(memory)@.len(),
            final(self).grew_within(old(self), 1),
            old(self).byte_read(final(self), old(memory)@, final(memory)@, address as int, r),
            old(self).coherent(old(memory)@) ==> {
                &&& final(self).coherent(final(memory)@)
                &&& final(self).contents(final(memory)@) == old(self).contents(old(memory)@)
                &&& (r is Ok <==> line_fits(address as int, old(memory)@.len() as int))
                &&& r is Ok ==> r == Ok::<u8, MemoryError>(old(self).contents(old(memory)@)[address as int])
            },
            r is Ok ==> final(self).is_hit(address as int),
            old(self).dirty_lines_fit(old(memory)@.len() as int) ==> final(self).dirty_lines_fit(
                old(memory)@.len() as int,
            ),
            old(self).dirty_lines_fit(old(memory)@.len() as int) && line_fits(
                address as int,
                old(memory)@.len() as int,
            ) ==> r is Ok,
    {
        reveal(Cache::byte_read);
        let ghost c0 = *self;
        let ghost m0 = memory@;
        let set_index = self.get_set_index(address);
        let tag = self.get_tag(address);
        let offset = self.get_offset(address);
        proof {
            lemma_address_split(address as int);
        }
        proof {
            c0.lemma_victim_in_range(set_index as int);
        }
        match self.find_line(set_index, tag) {
            Some(way_index) => {
                self.count_hit();
                proof {
                    c0.lemma_same_but_times(self, m0);
                }
                Ok(self.sets[set_index].lines[way_index].data[offset])
            },
            None => {
                match self.miss_fill(memory, address) {
                    Ok(way_index) => {
                        proof {
                            lemma_in_line(set_index as int, tag as int, address as int);
                            if c0.coherent(m0) {
                                self.lemma_find_way(set_index as int, way_index as int, tag as int);
                                assert(self.contents(memory@)[address as int] == self.cached_byte(
                                    memory@,
                                    address as int,
                                ));
                            }
                        }
                        Ok(self.sets[set_index].lines[way_index].data[offset])
                    },
                    Err(e) => Err(e),
                }
            },
        }
    }

    /// Writes the byte at `address` through the cache and marks its line
    /// dirty. A miss first writes the least recently used line of the set back
    /// if it is dirty and fills its way from memory, so the other bytes of the
    /// line stay those of memory. A fault of memory is passed on.
    pub fn write_byte(&mut self, memory: &mut Memory, address: MemoryAddress, value: u8) -> (r:
        Result<(), MemoryError>)
        requires
            old(self).wf(),
            old(self).headroom(1),
            old(memory).wf(),
        ensures
            final(self).wf(),
            final(memory).wf(),
            final(memory)@.len() == old(memory)@.len(),
            final(self).grew_within(old(self), 1),
            old(self).byte_written(final(self), old(memory)@, final(memory)@, address as int, value, r),
            old(self).coherent(old(memory)@) ==> {
                &&& final(self).coherent(final(memory)@)
                &&& (r is Ok <==> line_fits(address as int, old(memory)@.len() as int))
                &&& r is Ok ==> final(self).contents(final(memory)@) == old(self).contents(
                    old(memory)@,
                ).update(address as int, value)
                &&& r is Err ==> final(self).contents(final(memory)@) == old(self).contents(
                    old(memory)@,
                )
            },
            r is Ok ==> final(self).is_hit(address as int),
            old(self).dirty_lines_fit(old(memory)@.len() as int) && line_fits(
                address as int,
                old(memory)@.len() as int,
            ) ==> r is Ok && final(self).dirty_lines_fit(old(memory)@.len() as int),
    {
        reveal(Cache::byte_written);
        let ghost c0 = *self;
        let ghost m0 = memory@;
        let set_index = self.get_set_index(address);
        let tag = self.get_tag(address);
        let offset = self.get_offset(address);
        proof {
            lemma_address_split(address as int);
            lemma_tag_bound(address);
        }
        proof {
            c0.lemma_victim_in_range(set_index as int);
        }
        match self.find_line(set_index, tag) {
            Some(way_index) => {
                self.count_hit();
                let ghost c1 = *self;
                proof {
                    c0.lemma_same_but_times(&c1, m0);
                }
                self.store_byte(set_index, way_index, offset, value);
                proof {
                    c1.lemma_sole_holder(set_index as int, way_index as int, tag as int);
                    c1.lemma_replace_wf(self, set_index as int, way_index as int);
                    if c0.coherent(m0) {
                        c1.lemma_store_keeps_view(
                            self,
                            m0,
                            set_index as int,
                            way_index as int,
                            offset as int,
                            value,
                        );
                    }
                }
                Ok(())
            },
            None => {
                match self.miss_fill(memory, address) {
                    Ok(way_index) => {
                        let ghost c1 = *self;
                        self.store_byte(set_index, way_index, offset, value);
                        proof {
                            c1.lemma_sole_holder(set_index as int, way_index as int, tag as int);
                            c1.lemma_replace_wf(self, set_index as int, way_index as int);
                            if c0.coherent(m0) {
                                c1.lemma_store_keeps_view(
                                    self,
                                    memory@,
                                    set_index as int,
                                    way_index as int,
                                    offset as int,
                                    value,
                                );
                            }
                        }
                        Ok(())
                    },
                    Err(e) => Err(e),
                }
            },
        }
    }

    /// `read_byte` seen through the contents of memory.
    fn read_byte_seen(&mut self, memory: &mut Memory, address: MemoryAddress) -> (r: Result<
        u8,
        MemoryError,
    >)
        requires
            old(self).wf(),
            old(self).headroom(1),
            old(memory).wf(),
        ensures
            old(self).dirty_lines_fit(old(memory)@.len() as int) ==> final(self).dirty_lines_fit(
                old(memory)@.len() as int,
            ),
            old(self).dirty_lines_fit(old(memory)@.len() as int) && line_fits(
                address as int,
                old(memory)@.len() as int,
            ) ==> r is Ok,
            old(self).byte_read(final(self), old(memory)@, final(memory)@, address as int, r),
            final(self).spec_stats().hits + final(self).spec_stats().misses == old(self).spec_stats().hits + old(self).spec_stats().misses + 1,
            final(self).wf(),
            final(memory).wf(),
            final(memory)@.len() == old(memory)@.len(),
            final(self).grew_within(old(self), 1),
            old(self).coherent(old(memory)@) ==> {
                &&& final(self).coherent(final(memory)@)
                &&& final(self).contents(final(memory)@) == old(self).contents(old(memory)@)
                &&& (r is Ok <==> line_fits(address as int, old(memory)@.len() as int))
                &&& r is Ok ==> r == Ok::<u8, MemoryError>(old(self).contents(old(memory)@)[address as int])
                &&& r is Err ==> r == Err::<u8, MemoryError>(MemoryError::AddressOutOfRange(first_fault(line_base_of(address as int), old(memory)@.len() as int)))
            },
    {
        reveal(Cache::byte_read);
        let ghost c0 = *self;
        let r = self.read_byte(memory, address);
        proof {
            if r is Err && c0.coherent(old(memory)@) {
                lemma_address_split(address as int);
                c0.lemma_coherent_eviction_fits(old(memory)@, set_of(address as int));
            }
        }
        r
    }

    /// `write_byte` seen through the contents of memory.
    fn write_byte_seen(&mut self, memory: &mut Memory, address: MemoryAddress, value: u8) -> (r:
        Result<(), MemoryError>)
        requires
            old(self).wf(),
            old(self).headroom(1),
            old(memory).wf(),
        ensures
            old(self).dirty_lines_fit(old(memory)@.len() as int) && line_fits(
                address as int,
                old(memory)@.len() as int,
            ) ==> r is Ok && final(self).dirty_lines_fit(old(memory)@.len() as int),
            old(self).byte_written(final(self), old(memory)@, final(memory)@, address as int, value, r),
            final(self).spec_stats().hits + final(self).spec_stats().misses == old(self).spec_stats().hits + old(self).spec_stats().misses + 1,
            final(self).wf(),
            final(memory).wf(),
            final(memory)@.len() == old(memory)@.len(),
            final(self).grew_within(old(self), 1),
            old(self).coherent(old(memory)@) ==> {
                &&& final(self).coherent(final(memory)@)
                &&& (r is Ok <==> line_fits(address as int, old(memory)@.len() as int))
                &&& r is Ok ==> final(self).contents(final(memory)@) == old(self).contents(
                    old(memory)@,
                ).update(address as int, value)
                &&& r is Err ==> final(self).contents(final(memory)@) == old(self).contents(old(memory)@)
                &&& r is Err ==> r == Err::<(), MemoryError>(MemoryError::AddressOutOfRange(first_fault(line_base_of(address as int), old(memory)@.len() as int)))
            },
    {
        reveal(Cache::byte_written);
        let ghost c0 = *self;
        let r = self.write_byte(memory, address, value);
        proof {
            if r is Err && c0.coherent(old(memory)@) {
                lemma_address_split(address as int);
                c0.lemma_coherent_eviction_fits(old(memory)@, set_of(address as int));
            }
        }
        r
    }

    /// Reads the little-endian word at `address` as four byte reads through
    /// the cache, after checking that all four bytes lie inside memory.
    pub fn read_word(&mut self, memory: &mut Memory, address: MemoryAddress) -> (r: Result<
        Word,
        MemoryError,
    >)
        requires
            old(self).wf(),
            old(self).headroom(4),
            old(memory).wf(),
        ensures
            old(self).dirty_lines_fit(old(memory)@.len() as int) && word_in_bounds(
                address as int,
                old(memory)@.len() as int,
            ) && word_lines_fit(address as int, old(memory)@.len() as int) ==> r is Ok,
            r is Ok ==> old(self).word_read(final(self), old(memory)@, final(memory)@, address as int, r->Ok_0),
            final(self).wf(),
            final(memory).wf(),
            final(memory)@.len() == old(memory)@.len(),
            final(self).grew_within(old(self), 4),
            r is Ok ==> final(self).spec_stats().hits + final(self).spec_stats().misses == old(self).spec_stats().hits + old(self).spec_stats().misses + 4,
            !word_in_bounds(address as int, old(memory)@.len() as int) ==> r == Err::<
                Word,
                MemoryError,
            >(MemoryError::AddressOutOfRange(address)) && *final(self) == *old(self) && final(memory)@ == old(memory)@,
            old(self).coherent(old(memory)@) ==> final(self).coherent(final(memory)@) && final(self).contents(final(memory)@) == old(self).contents(old(memory)@),
            old(self).coherent(old(memory)@) && word_in_bounds(
                address as int,
                old(memory)@.len() as int,
            ) ==> {
                &&& (r is Ok <==> word_lines_fit(address as int, old(memory)@.len() as int))
                &&& r is Ok ==> r == Ok::<Word, MemoryError>(
                    word_at(old(self).contents(old(memory)@), address as int),
                )
                &&& r is Err ==> r == Err::<Word, MemoryError>(
                    MemoryError::AddressOutOfRange(old(memory)@.len() as u32),
                )
            },
    {
        if (address as usize).saturating_add(3) >= memory.size() {
            return Err(MemoryError::AddressOutOfRange(address));
        }
        let ghost c0 = *self;
        let ghost m0 = memory@;
        let ghost len = m0.len() as int;
        let ghost fits = word_lines_fit(address as int, len);
        proof {
            if fits {
                lemma_line_fits_mono(address as int, address + 3, len);
                lemma_line_fits_mono(address + 1, address + 3, len);
                lemma_line_fits_mono(address + 2, address + 3, len);
            }
            lemma_address_split(address as int);
            lemma_address_split(address + 1);
            lemma_address_split(address + 2);
            lemma_address_split(address + 3);
        }
        let b0 = match self.read_byte_seen(memory, address) {
            Ok(b) => b,
            Err(e) => return Err(e),
        };
        let ghost c1 = *self;
        let ghost m1 = memory@;
        let b1 = match self.read_byte_seen(memory, address + 1) {
            Ok(b) => b,
            Err(e) => return Err(e),
        };
        let ghost c2 = *self;
        let ghost ma = memory@;
        let b2 = match self.read_byte_seen(memory, address + 2) {
            Ok(b) => b,
            Err(e) => return Err(e),
        };
        let ghost c3 = *self;
        let ghost mb = memory@;
        let b3 = match self.read_byte_seen(memory, address + 3) {
            Ok(b) => b,
            Err(e) => return Err(e),
        };
        let word = ((b3 as u32) << 24u32) | ((b2 as u32) << 16u32) | ((b1 as u32) << 8u32) | (b0 as u32);
        assert(((b3 as u32) << 24u32) | ((b2 as u32) << 16u32) | ((b1 as u32) << 8u32) | (b0 as u32)
            == (b0 as u32) | ((b1 as u32) << 8u32) | ((b2 as u32) << 16u32) | ((b3 as u32) << 24u32)) by (bit_vector);
        assert(c0.byte_read(&c1, m0, m1, address as int, Ok::<u8, MemoryError>(b0)));
        assert(c1.byte_read(&c2, m1, ma, address + 1, Ok::<u8, MemoryError>(b1)));
        assert(c2.byte_read(&c3, ma, mb, address + 2, Ok::<u8, MemoryError>(b2)));
        assert(c3.byte_read(self, mb, memory@, address + 3, Ok::<u8, MemoryError>(b3)));
        assert(word == word_of_bytes(b0, b1, b2, b3));
        Ok(word)
    }

    /// Writes the little-endian word `value` at `address` as four byte
    /// writes through the cache, after checking that all four bytes lie
    /// inside memory.
    pub fn write_word(&mut self, memory: &mut Memory, address: MemoryAddress, value: Word) -> (r:
        Result<(), MemoryError>)
        requires
            old(self).wf(),
            old(self).headroom(4),
            old(memory).wf(),
        ensures
            old(self).dirty_lines_fit(old(memory)@.len() as int) && word_in_bounds(
                address as int,
                old(memory)@.len() as int,
            ) && word_lines_fit(address as int, old(memory)@.len() as int) ==> r is Ok,
            r is Ok ==> old(self).word_written(final(self), old(memory)@, final(memory)@, address as int, value),
            final(self).wf(),
            final(memory).wf(),
            final(memory)@.len() == old(memory)@.len(),
            final(self).grew_within(old(self), 4),
            r is Ok ==> final(self).spec_stats().hits + final(self).spec_stats().misses == old(self).spec_stats().hits + old(self).spec_stats().misses + 4,
            !word_in_bounds(address as int, old(memory)@.len() as int) ==> r == Err::<
                (),
                MemoryError,
            >(MemoryError::AddressOutOfRange(address)) && *final(self) == *old(self) && final(memory)@ == old(memory)@,
            old(self).coherent(old(memory)@) ==> final(self).coherent(final(memory)@),
            old(self).coherent(old(memory)@) && word_in_bounds(
                address as int,
                old(memory)@.len() as int,
            ) ==> {
                &&& (r is Ok <==> word_lines_fit(address as int, old(memory)@.len() as int))
                &&& r is Ok ==> final(self).contents(final(memory)@) == put_word(
                    old(self).contents(old(memory)@),
                    address as int,
                    value,
                )
                &&& r is Err ==> r == Err::<(), MemoryError>(
                    MemoryError::AddressOutOfRange(old(memory)@.len() as u32),
                )
            },
    {
        if (address as usize).saturating_add(3) >= memory.size() {
            return Err(MemoryError::AddressOutOfRange(address));
        }
        let ghost c0 = *self;
        let ghost m0 = memory@;
        let ghost len = m0.len() as int;
        let ghost fits = word_lines_fit(address as int, len);
        proof {
            if fits {
                lemma_line_fits_mono(address as int, address + 3, len);
                lemma_line_fits_mono(address + 1, address + 3, len);
                lemma_line_fits_mono(address + 2, address + 3, len);
            }
            lemma_address_split(address as int);
            lemma_address_split(address + 1);
            lemma_address_split(address + 2);
            lemma_address_split(address + 3);
            assert(value >> 0u32 == value) by (bit_vector);
        }
        let byte0: u8 = (value & 0xff) as u8;
        let byte1: u8 = ((value >> 8u32) & 0xff) as u8;
        let byte2: u8 = ((value >> 16u32) & 0xff) as u8;
        let byte3: u8 = ((value >> 24u32) & 0xff) as u8;
        assert(byte_of(value, 0) == byte0 && byte_of(value, 1) == byte1 && byte_of(value, 2) == byte2
            && byte_of(value, 3) == byte3) by (bit_vector)
            requires
                byte0 == (value & 0xff) as u8,
                byte1 == ((value >> 8u32) & 0xff) as u8,
                byte2 == ((value >> 16u32) & 0xff) as u8,
                byte3 == ((value >> 24u32) & 0xff) as u8,
        ;
        let r0 = self.write_byte_seen(memory, address, byte0);
        match r0 {
            Ok(()) => {},
            Err(e) => return Err(e),
        }
        let ghost c1 = *self;
        let ghost m1 = memory@;
        let r1 = self.write_byte_seen(memory, address + 1, byte1);
        match r1 {
            Ok(()) => {},
            Err(e) => return Err(e),
        }
        let ghost c2 = *self;
        let ghost ma = memory@;
        let r2 = self.write_byte_seen(memory, address + 2, byte2);
        match r2 {
            Ok(()) => {},
            Err(e) => return Err(e),
        }
        let ghost c3 = *self;
        let ghost mb = memory@;
        let r3 = self.write_byte_seen(memory, address + 3, byte3);
        match r3 {
            Ok(()) => {},
            Err(e) => return Err(e),
        }
        assert(c0.byte_written(&c1, m0, m1, address as int, byte_of(value, 0), r0) && r0 is Ok);
        assert(c1.byte_written(&c2, m1, ma, address + 1, byte_of(value, 1), r1) && r1 is Ok);
        assert(c2.byte_written(&c3, ma, mb, address + 2, byte_of(value, 2), r2) && r2 is Ok);
        assert(c3.byte_written(self, mb, memory@, address + 3, byte_of(value, 3), r3) && r3 is Ok);
        Ok(())
    }

    /// The statistics.
    pub fn get_stats(&self) -> (r: &CacheStats)
        ensures
            *r == self.spec_stats(),
    {
        &self.stats
    }

    /// The access counter.
    pub fn access_count(&self) -> (r: u64)
        ensures
            r == self.counter(),
    {
        self.access_counter
    }

    /// Sets the statistics to zero; the lines and the counter stay.
    pub fn reset_stats(&mut self)
        ensures
            final(self).spec_stats() == (CacheStats { hits: 0, misses: 0, writebacks: 0 }),
            final(self).same_lines(old(self)),
            final(self).counter() == old(self).counter(),
            final(self).wf() == old(self).wf(),
    {
        let ghost c0 = *self;
        self.stats = CacheStats { hits: 0, misses: 0, writebacks: 0 };
        proof {
            c0.lemma_same_but_times(self, Seq::empty());
        }
    }

    /// Writes every valid dirty line back to memory and marks it clean; lines
    /// stay valid. A fault of memory is passed on.
    pub fn flush(&mut self, memory: &mut Memory) -> (r: Result<(), MemoryError>)
        requires
            old(self).wf(),
            old(self).headroom(256),
            old(memory).wf(),
        ensures
            final(self).wf(),
            final(memory).wf(),
            final(memory)@.len() == old(memory)@.len(),
            final(self).grew_within(old(self), 256),
            final(self).counter() == old(self).counter(),
            final(self).spec_stats().hits == old(self).spec_stats().hits,
            final(self).spec_stats().misses == old(self).spec_stats().misses,
            (r is Ok <==> old(self).dirty_lines_fit(old(memory)@.len() as int)),
            r is Ok ==> final(memory)@ == old(self).written_back_upto(old(memory)@, 256),
            r is Ok ==> final(self).spec_stats().writebacks == old(self).spec_stats().writebacks
                + old(self).dirty_count(),
            r is Ok ==> forall|s: int, w: int|
                0 <= s < 64 && 0 <= w < 4 ==> #[trigger] final(self).line(s, w) == (CacheLine {
                    dirty: false,
                    ..old(self).line(s, w)
                }),
            old(self).coherent(old(memory)@) ==> {
                &&& r is Ok
                &&& final(memory)@ == old(self).contents(old(memory)@)
                &&& final(self).coherent(final(memory)@)
                &&& final(self).contents(final(memory)@) == old(self).contents(old(memory)@)
            },
    {
        let ghost c0 = *self;
        let ghost m0 = memory@;
        let mut k: usize = 0;
        while k < CACHE_SETS * CACHE_WAYS
            invariant
                k <= 256,
                c0 == *old(self),
                m0 == old(memory)@,
                self.wf(),
                c0.wf(),
                memory.wf(),
                memory@.len() == m0.len(),
                memory@ == c0.written_back_upto(m0, k as int),
                self.counter() == c0.counter(),
                self.spec_stats().hits == c0.spec_stats().hits,
                self.spec_stats().misses == c0.spec_stats().misses,
                c0.spec_stats().writebacks <= self.spec_stats().writebacks <= c0.spec_stats().writebacks + k,
                self.spec_stats().writebacks == c0.spec_stats().writebacks + c0.dirty_count_upto(k as int),
                c0.headroom(256),
                forall|s: int, w: int|
                    0 <= s < 64 && 0 <= w < 4 ==> #[trigger] self.line(s, w) == if s * 4 + w < k {
                        CacheLine { dirty: false, ..c0.line(s, w) }
                    } else {
                        c0.line(s, w)
                    },
                forall|s: int, w: int|
                    0 <= s < 64 && 0 <= w < 4 && s * 4 + w < k && (#[trigger] c0.line(s, w)).dirty
                        ==> line_base(s, c0.line(s, w).tag as int) + 32 <= m0.len(),
            decreases 256 - k,
        {
            let set_index = k / CACHE_WAYS;
            let way_index = k % CACHE_WAYS;
            let line = self.sets[set_index].lines[way_index];
            assert(set_index * 4 + way_index == k) by {
                vstd::arithmetic::div_mod::lemma_fundamental_div_mod(k as int, 4);
            }
            assert(line == self.line(set_index as int, way_index as int));
            assert(line == c0.line(set_index as int, way_index as int));
            assert(set_index == k / 4 && way_index == k % 4);
            assert(line.dirty ==> line.valid);
            assert(c0.dirty_count_upto(k + 1) == c0.dirty_count_upto(k as int) + if line.dirty {
                1nat
            } else {
                0nat
            });
            if line.valid && line.dirty {
                let ghost mk = memory@;
                match self.writeback_line(memory, set_index, way_index) {
                    Err(e) => {
                        assert(!c0.dirty_lines_fit(m0.len() as int));
                        return Err(e);
                    },
                    Ok(()) => {},
                }
                let ghost c1 = *self;
                let mut cleaned = line;
                cleaned.dirty = false;
                self.put_line(set_index, way_index, cleaned);
                proof {
                    assert forall|w2: int| 0 <= w2 < 4 && w2 != way_index implies !#[trigger] c1.holds(
                        set_index as int,
                        w2,
                        line.tag as int,
                    ) by {
                        assert(c0.line(set_index as int, w2).valid ==> c0.line(set_index as int, w2).tag != line.tag);
                    }
                    c1.lemma_replace_wf(self, set_index as int, way_index as int);
                    let t = line.tag as int;
                    let base = line_base(set_index as int, t);
                    assert forall|b: int| 0 <= b < m0.len() implies #[trigger] memory@[b] == c0.written_back_upto(
                        m0,
                        k + 1,
                    )[b] by {
                        lemma_address_split(b);
                        let sb = set_of(b);
                        let wb = c0.find_way(sb, tag_of(b));
                        if base <= b < base + 32 {
                            lemma_in_line(set_index as int, t, b);
                            c0.lemma_find_way(set_index as int, way_index as int, t);
                        } else if wb < 4 && sb * 4 + wb == k {
                            assert(sb == set_index && wb == way_index);
                            lemma_address_split(b);
                        }
                    }
                    assert(memory@ =~= c0.written_back_upto(m0, k + 1));
                }
            } else {
                proof {
                    assert forall|b: int| 0 <= b < m0.len() implies #[trigger] memory@[b] == c0.written_back_upto(
                        m0,
                        k + 1,
                    )[b] by {
                        lemma_address_split(b);
                        let sb = set_of(b);
                        let wb = c0.find_way(sb, tag_of(b));
                        if wb < 4 && sb * 4 + wb == k {
                            assert(sb == set_index && wb == way_index);
                        }
                    }
                    assert(memory@ =~= c0.written_back_upto(m0, k + 1));
                }
            }
            k = k + 1;
        }
        proof {
            if c0.coherent(m0) {
                c0.lemma_flush_view(self, m0);
            }
        }
        Ok(())
    }
}

/// What a well-formed cache guarantees of its lines: an invalid line is
/// clean; a valid line's tag fits a 32-bit address and its access time lies
/// below the access counter; and no two valid lines of a set share a tag or
/// an access time.
pub proof fn lemma_wf_lines(c: Cache)
    requires
        c.wf(),
    ensures
        forall|s: int, w: int|
            0 <= s < 64 && 0 <= w < 4 ==> {
                &&& (!(#[trigger] c.line(s, w)).valid ==> !c.line(s, w).dirty)
                &&& (c.line(s, w).valid ==> c.line(s, w).tag < 0x20_0000 && c.line(s, w).access_time
                    < c.counter())
            },
        forall|s: int, w1: int, w2: int|
            0 <= s < 64 && 0 <= w1 < 4 && 0 <= w2 < 4 && w1 != w2 && (#[trigger] c.line(s, w1)).valid
                && (#[trigger] c.line(s, w2)).valid ==> c.line(s, w1).tag != c.line(s, w2).tag
                && c.line(s, w1).access_time != c.line(s, w2).access_time,
{
}

/// A coherent cache's dirty lines all lie inside memory.
pub proof fn lemma_coherent_dirty_lines_fit(c: Cache, m: Seq<u8>)
    requires
        c.wf(),
        c.coherent(m),
    ensures
        c.dirty_lines_fit(m.len() as int),
{
    lemma_wf_lines(c);
}

/// Addresses of one line are resident together: once an access has made the
/// line of `a` resident, an access to any `b` of the same 32-byte line hits.
/// In an empty cache, such as a new one, every access misses.
pub proof fn lemma_same_line_resident(c: Cache, a: int, b: int)
    requires
        0 <= a,
        0 <= b,
        line_base_of(a) == line_base_of(b),
    ensures
        c.is_hit(a) == c.is_hit(b),
        c.is_empty() ==> !c.is_hit(a),
{
    lemma_address_split(a);
    lemma_address_split(b);
    lemma_in_line(set_of(a), tag_of(a), b);
}

/// The first access to an address whose line is not resident is a miss: it
/// counts a miss and no hit and, when the dirty lines and that line lie in
/// memory, returns the byte of memory.
pub proof fn lemma_first_access_misses(
    c: Cache,
    c2: Cache,
    m: Seq<u8>,
    m2: Seq<u8>,
    a: int,
    r: Result<u8, MemoryError>,
)
    requires
        c.wf(),
        0 <= a < m.len(),
        c.byte_read(&c2, m, m2, a, r),
        !c.is_hit(a),
    ensures
        c2.spec_stats().misses == (c.spec_stats().misses + 1) as u64,
        c2.spec_stats().hits == c.spec_stats().hits,
        c.dirty_lines_fit(m.len() as int) && line_fits(a, m.len() as int) ==> r == Ok::<
            u8,
            MemoryError,
        >(m[a]),
{
    reveal(Cache::byte_read);
    lemma_address_split(a);
    let s = set_of(a);
    c.lemma_victim_in_range(s);
    let v = c.victim(s);
    if c.victim_dirty(s) {
        let vt = c.line(s, v).tag as int;
        let vbase = line_base(s, vt);
        if vbase <= a < vbase + 32 {
            assert(c.line(s, v).valid);
            lemma_in_line(s, vt, a);
            assert(c.holds(s, v, tag_of(a)));
        }
    }
}

/// After a successful read of `a`, a read of any `b` in the same 32-byte
/// line hits: it counts a hit and no miss, leaves memory alone and succeeds.
pub proof fn lemma_same_line_hits(
    c0: Cache,
    c1: Cache,
    c2: Cache,
    m0: Seq<u8>,
    m1: Seq<u8>,
    m2: Seq<u8>,
    a: int,
    b: int,
    x: u8,
    r: Result<u8, MemoryError>,
)
    requires
        c0.wf(),
        0 <= a,
        0 <= b,
        line_base_of(a) == line_base_of(b),
        c0.byte_read(&c1, m0, m1, a, Ok::<u8, MemoryError>(x)),
        c1.byte_read(&c2, m1, m2, b, r),
    ensures
        c2.spec_stats().hits == (c1.spec_stats().hits + 1) as u64,
        c2.spec_stats().misses == c1.spec_stats().misses,
        m2 == m1,
        r is Ok,
{
    reveal(Cache::byte_read);
    lemma_address_split(a);
    let s = set_of(a);
    let t = tag_of(a);
    c0.lemma_victim_in_range(s);
    if c0.is_hit(a) {
        let w = c0.find_way(s, t);
        assert(c1.holds(s, w, t));
    } else {
        assert(c1.holds(s, c0.victim(s), t));
    }
    assert(c1.is_hit(a));
    lemma_same_line_resident(c1, a, b);
}

/// Through a coherent cache, a word that a write leaves in the contents reads
/// back as written: `write_word` leaves `put_word` of the old contents, and a
/// later `read_word` returns the word of the contents at that address.
pub proof fn lemma_cache_word_round_trip(
    c0: Cache,
    m0: Seq<u8>,
    c1: Cache,
    m1: Seq<u8>,
    a: int,
    v: u32,
)
    requires
        c0.coherent(m0),
        word_in_bounds(a, m0.len() as int),
        c1.coherent(m1),
        c1.contents(m1) == put_word(c0.contents(m0), a, v),
    ensures
        m1.len() == m0.len(),
        word_in_bounds(a, m1.len() as int),
        word_at(c1.contents(m1), a) == v,
{
    assert(c1.contents(m1).len() == m1.len());
    lemma_bytes_of_word(v);
}

/// A word written through a coherent cache is in memory after a flush: the
/// flush leaves memory equal to the contents, which hold the word.
pub proof fn lemma_flush_publishes_write(
    c0: Cache,
    m0: Seq<u8>,
    c1: Cache,
    m1: Seq<u8>,
    m2: Seq<u8>,
    a: int,
    v: u32,
)
    requires
        c0.coherent(m0),
        word_in_bounds(a, m0.len() as int),
        c1.coherent(m1),
        c1.contents(m1) == put_word(c0.contents(m0), a, v),
        m2 == c1.contents(m1),
    ensures
        word_in_bounds(a, m2.len() as int),
        word_at(m2, a) == v,
{
    lemma_cache_word_round_trip(c0, m0, c1, m1, a, v);
}

} // verus!
