//! DEFLATE decoder (RFC 1951): canonical-Huffman, bit-at-a-time decoding.
use vstd::prelude::*;
use vstd::arithmetic::power2::{pow2, lemma_pow2_adds, lemma_pow2_pos, lemma2_to64};
use vstd::bits::{
    lemma_u32_shl_is_mul, lemma_u32_shr_is_div, lemma_u32_low_bits_mask_is_mod, low_bits_mask,
    lemma_u32_pow2_no_overflow,
};

verus! {

pub const MAX_BITS: usize = 15;
pub const MAX_LCODES: usize = 286;
pub const MAX_DCODES: usize = 30;
pub const MAX_CODES: usize = 316;
pub const FIX_LCODES: usize = 288;

/// Bit `k` of the byte stream `d`, bits numbered from the least significant bit of byte 0.
pub open spec fn bit_at(d: Seq<u8>, k: int) -> int {
    ((d[k / 8] >> ((k % 8) as u8)) & 1u8) as int
}

/// The `n` bits of `d` from bit `s` on, the first one least significant.
pub open spec fn bits_val(d: Seq<u8>, s: int, n: int) -> int
    decreases n,
{
    if n <= 0 {
        0
    } else {
        bit_at(d, s) + 2 * bits_val(d, s + 1, n - 1)
    }
}

proof fn lemma_bits_bound(d: Seq<u8>, s: int, n: int)
    requires
        n >= 0,
    ensures
        0 <= bits_val(d, s, n) < pow2(n as nat),
    decreases n,
{
    lemma2_to64();
    if n > 0 {
        lemma_bits_bound(d, s + 1, n - 1);
        assert(pow2(n as nat) == 2 * pow2((n - 1) as nat)) by {
            vstd::arithmetic::power2::lemma_pow2_unfold(n as nat);
        }
        let b = d[s / 8];
        let k = (s % 8) as u8;
        assert((b >> k) & 1u8 <= 1u8) by (bit_vector);
    }
}

proof fn lemma_bits_split(d: Seq<u8>, s: int, a: int, b: int)
    requires
        a >= 0,
        b >= 0,
    ensures
        bits_val(d, s, a + b) == bits_val(d, s, a) + pow2(a as nat) * bits_val(d, s + a, b),
    decreases a,
{
    if a > 0 {
        lemma_bits_split(d, s + 1, a - 1, b);
        vstd::arithmetic::power2::lemma_pow2_unfold(a as nat);
        let x = bits_val(d, s + a, b);
        let p = pow2((a - 1) as nat);
        let y = bits_val(d, s + 1, a - 1);
        assert(bits_val(d, s + 1, (a - 1) + b) == y + p * x);
        assert(bits_val(d, s, a + b) == bit_at(d, s) + 2 * bits_val(d, s + 1, (a - 1) + b));
        assert(bits_val(d, s, a) == bit_at(d, s) + 2 * y);
        assert(2 * (y + p * x) == 2 * y + (2 * p) * x) by (nonlinear_arith);
        assert(pow2(a as nat) == 2 * p);
        assert(pow2(a as nat) * x == (2 * p) * x);
        assert(bits_val(d, s, a + b) == bits_val(d, s, a) + pow2(a as nat) * x);
    } else {
        assert(pow2(0) == 1) by {
            lemma2_to64();
        }
        assert(bits_val(d, s, 0) == 0);
        assert(a as nat == 0nat);
        assert(pow2(a as nat) == 1);
        assert(a + b == b);
        assert(s + a == s);
        assert(pow2(a as nat) * bits_val(d, s + a, b) == bits_val(d, s, b));
    }
}

proof fn lemma_byte_bits(d: Seq<u8>, p: int)
    requires
        0 <= p < d.len(),
    ensures
        bits_val(d, 8 * p, 8) == d[p] as int,
{
    reveal_with_fuel(bits_val, 9);
    let b = d[p];
    assert((8 * p) / 8 == p && (8 * p) % 8 == 0);
    assert((8 * p + 1) / 8 == p && (8 * p + 1) % 8 == 1);
    assert((8 * p + 2) / 8 == p && (8 * p + 2) % 8 == 2);
    assert((8 * p + 3) / 8 == p && (8 * p + 3) % 8 == 3);
    assert((8 * p + 4) / 8 == p && (8 * p + 4) % 8 == 4);
    assert((8 * p + 5) / 8 == p && (8 * p + 5) % 8 == 5);
    assert((8 * p + 6) / 8 == p && (8 * p + 6) % 8 == 6);
    assert((8 * p + 7) / 8 == p && (8 * p + 7) % 8 == 7);
    assert(b as int == ((b >> 0u8) & 1u8) as int + 2 * (((b >> 1u8) & 1u8) as int + 2 * (((b >> 2u8)
        & 1u8) as int + 2 * (((b >> 3u8) & 1u8) as int + 2 * (((b >> 4u8) & 1u8) as int + 2 * (((b
        >> 5u8) & 1u8) as int + 2 * (((b >> 6u8) & 1u8) as int + 2 * (((b >> 7u8) & 1u8) as int))))))))
        by (bit_vector);
}

proof fn lemma_bits_add_byte(d: Seq<u8>, bp: int, cnt: int, pos: int)
    requires
        0 <= cnt,
        0 <= pos < d.len(),
        bp + cnt == 8 * pos,
    ensures
        bits_val(d, bp, cnt + 8) == bits_val(d, bp, cnt) + pow2(cnt as nat) * (d[pos] as int),
{
    lemma_bits_split(d, bp, cnt, 8);
    lemma_byte_bits(d, pos);
}

pub struct BitReader<'a> {
    data: &'a [u8],
    pos: usize,
    bitbuf: u32,
    bitcnt: i32,
    error: bool,
}

impl<'a> BitReader<'a> {
    pub closed spec fn input(&self) -> Seq<u8> {
        self.data@
    }

    /// The number of bits read so far.
    pub closed spec fn bitpos(&self) -> int {
        8 * self.pos - self.bitcnt
    }

    /// The input ran out.
    pub closed spec fn failed(&self) -> bool {
        self.error
    }

    pub closed spec fn wf(&self) -> bool {
        &&& self.pos <= self.data@.len()
        &&& 0 <= self.bitcnt < 24
        &&& (self.error ==> self.pos == self.data@.len())
        &&& (!self.error ==> {
            &&& self.bitcnt < 8
            &&& 8 * self.pos - self.bitcnt >= 0
            &&& self.bitbuf as int == bits_val(self.data@, 8 * self.pos - self.bitcnt, self.bitcnt as int)
        })
    }

    /// The bits left to read.
    pub open spec fn remaining(&self) -> int {
        8 * self.input().len() - self.bitpos()
    }

    pub fn new(data: &'a [u8]) -> (br: Self)
        ensures
            br.wf(),
            br.input() == data@,
            br.bitpos() == 0,
            !br.failed(),
    {
        BitReader { data, pos: 0, bitbuf: 0, bitcnt: 0, error: false }
    }

    /// Reads `need` bits, the first one least significant; 0 and a failure when the input runs out.
    pub fn bits(&mut self, need: i32) -> (v: i32)
        requires
            old(self).wf(),
            0 <= need <= 15,
        ensures
            final(self).wf(),
            final(self).input() == old(self).input(),
            0 <= v < pow2(need as nat),
            v < 0x8000,
            old(self).failed() ==> final(self).failed(),
            !old(self).failed() ==> {
                &&& final(self).failed() <==> old(self).bitpos() + need > 8 * old(self).input().len()
                &&& !final(self).failed() ==> {
                    &&& v == bits_val(old(self).input(), old(self).bitpos(), need as int)
                    &&& final(self).bitpos() == old(self).bitpos() + need
                }
            },
    {
        let ghost d = self.data@;
        let ghost bp = 8 * self.pos - self.bitcnt;
        let mut val = self.bitbuf;
        proof {
            lemma_u32_pow2_no_overflow(need as nat);
            lemma_pow2_pos(need as nat);
        }
        let mut pos = self.pos;
        let mut cnt = self.bitcnt;
        while cnt < need
            invariant
                self.data@ == d,
                self.pos == old(self).pos,
                self.bitcnt == old(self).bitcnt,
                pos <= d.len(),
                0 <= cnt < 24,
                cnt == old(self).bitcnt || cnt < need + 8,
                need <= 15,
                self.error == old(self).error,
                old(self).error ==> pos == d.len() && cnt == old(self).bitcnt,
                !old(self).error ==> {
                    &&& bp == 8 * pos - cnt
                    &&& bp >= 0
                    &&& val as int == bits_val(d, bp, cnt as int)
                },
                old(self).wf(),
                old(self).data@ == d,
                bp == 8 * old(self).pos - old(self).bitcnt,
                self.bitbuf == old(self).bitbuf,
                pow2(need as nat) > 0,
                old(self).error ==> val == old(self).bitbuf,
            decreases need as int + 8 - cnt as int,
        {
            if pos >= self.data.len() {
                self.error = true;
                self.pos = pos;
                self.bitcnt = cnt;
                proof {
                    if !old(self).error {
                        lemma_bits_bound(d, bp, 0);
                    }
                }
                return 0;
            }
            let byte = self.data[pos];
            proof {
                lemma_bits_bound(d, bp, cnt as int);
                lemma_u32_pow2_no_overflow(cnt as nat);
                lemma_u32_shl_is_mul(1u32, cnt as u32);
                assert(byte as u32 * pow2(cnt as nat) <= u32::MAX) by {
                    lemma2_to64();
                    vstd::arithmetic::power2::lemma_pow2_strictly_increases(cnt as nat, 22);
                    assert(byte as u32 * pow2(cnt as nat) <= 255 * pow2(22)) by (nonlinear_arith)
                        requires byte <= 255, pow2(cnt as nat) <= pow2(22);
                }
                lemma_u32_shl_is_mul(byte as u32, cnt as u32);
            }
            let sh = (byte as u32) << (cnt as u32);
            proof {
                if !old(self).error {
                    let c = cnt as u32;
                    assert(val < (1u32 << c));
                    assert(val | ((byte as u32) << c) == val + ((byte as u32) << c)) by (bit_vector)
                        requires val < (1u32 << c), c < 24u32;
                    lemma_bits_add_byte(d, bp, cnt as int, pos as int);
                    assert(sh as int == (byte as int) * pow2(c as nat));
                    assert((val | sh) as int == val as int + sh as int);
                    vstd::arithmetic::mul::lemma_mul_is_commutative(byte as int, pow2(c as nat) as int);
                    assert((val | sh) as int == bits_val(d, bp, cnt + 8));
                }
            }
            val = val | sh;
            pos += 1;
            cnt += 8;
        }
        self.pos = pos;
        self.bitcnt = cnt;
        let ghost cnt = self.bitcnt as int;
        proof {
            lemma_u32_shr_is_div(val, need as u32);
            lemma_u32_low_bits_mask_is_mod(val, need as nat);
            lemma_u32_shl_is_mul(1u32, need as u32);
            assert(low_bits_mask(need as nat) == pow2(need as nat) - 1);
            if !old(self).error {
                lemma_bits_split(d, bp, need as int, cnt - need);
                lemma_bits_bound(d, bp, need as int);
                lemma_bits_bound(d, bp + need, cnt - need);
                let lo = bits_val(d, bp, need as int);
                let hi = bits_val(d, bp + need, cnt - need);
                let m = pow2(need as nat) as int;
                assert(val as int == lo + m * hi);
                vstd::arithmetic::div_mod::lemma_fundamental_div_mod_converse(val as int, m, hi, lo);
            }
        }
        self.bitbuf = val >> (need as u32);
        self.bitcnt -= need;
        let m = val & ((1u32 << (need as u32)) - 1);
        proof {
            if !old(self).error {
                lemma_bits_bound(d, bp + need, self.bitcnt as int);
            }
            vstd::arithmetic::div_mod::lemma_mod_bound(val as int, pow2(need as nat) as int);
            assert(m as int == val as int % (pow2(need as nat) as int));
            assert(pow2(need as nat) <= pow2(15)) by {
                if need < 15 {
                    vstd::arithmetic::power2::lemma_pow2_strictly_increases(need as nat, 15);
                }
            }
            lemma2_to64();
            assert(m < 0x8000);
        }
        m as i32
    }
}

/// The sum of `c[lo..hi)`.
pub open spec fn sum_range(c: Seq<i16>, lo: int, hi: int) -> int
    decreases hi - lo,
{
    if hi <= lo {
        0
    } else {
        sum_range(c, lo, hi - 1) + c[hi - 1]
    }
}

/// How many of the `n` code lengths at `ls[off..]` equal `l`.
pub open spec fn count_len(ls: Seq<i16>, off: int, n: int, l: int) -> int
    decreases n,
{
    if n <= 0 {
        0
    } else {
        count_len(ls, off, n - 1, l) + if ls[off + n - 1] == l {
            1int
        } else {
            0int
        }
    }
}

/// The Kraft check over code lengths `l..=15`, with `left` codes still free at length `l - 1`:
/// the first negative remainder (over-subscribed), else what is left at the end.
pub open spec fn kraft_from(c: Seq<i16>, l: int, left: int) -> int
    decreases 16 - l,
{
    if l < 1 || l > 15 {
        left
    } else if 2 * left - c[l] < 0 {
        2 * left - c[l]
    } else {
        kraft_from(c, l + 1, 2 * left - c[l])
    }
}

/// What `construct` answers for a code with length counts `c` over `n` symbols:
/// 0 when complete (or when no symbol has a code), above 0 when incomplete, below 0 when over-subscribed.
pub open spec fn construct_result(c: Seq<i16>, n: int) -> int {
    if c[0] == n {
        0
    } else {
        kraft_from(c, 1, 1)
    }
}

/// The Kraft sum of the codes of lengths 1 to `l` (with `c[k]` codes of length `k`), in units
/// of 2^-l: the sum of `c[k] * 2^(l - k)`.
pub open spec fn kraft_sum(c: Seq<i16>, l: int) -> int
    decreases l,
{
    if l <= 0 {
        0
    } else {
        2 * kraft_sum(c, l - 1) + c[l]
    }
}

proof fn lemma_kraft_grows(c: Seq<i16>, l: int)
    requires
        1 <= l <= 15,
        c.len() >= 16,
        forall|k: int| 1 <= k <= 15 ==> #[trigger] c[k] >= 0,
        kraft_sum(c, l) > pow2(l as nat),
    ensures
        kraft_sum(c, 15) > pow2(15),
    decreases 15 - l,
{
    if l < 15 {
        vstd::arithmetic::power2::lemma_pow2_unfold((l + 1) as nat);
        assert(c[l + 1] >= 0);
        lemma_kraft_grows(c, l + 1);
    }
}

proof fn lemma_kraft_from(c: Seq<i16>, l: int, left: int)
    requires
        1 <= l <= 16,
        c.len() >= 16,
        forall|k: int| 1 <= k <= 15 ==> #[trigger] c[k] >= 0,
        left == pow2((l - 1) as nat) - kraft_sum(c, l - 1),
    ensures
        kraft_from(c, l, left) >= 0 ==> kraft_from(c, l, left) == pow2(15) - kraft_sum(c, 15),
        kraft_from(c, l, left) < 0 ==> kraft_sum(c, 15) > pow2(15),
    decreases 16 - l,
{
    if l <= 15 {
        vstd::arithmetic::power2::lemma_pow2_unfold(l as nat);
        let nl = 2 * left - c[l];
        assert(nl == pow2(l as nat) - kraft_sum(c, l));
        if nl < 0 {
            lemma_kraft_grows(c, l);
        } else {
            lemma_kraft_from(c, l + 1, nl);
        }
    }
}

/// What `construct` answers, in terms of the Kraft sum of the code lengths (in units of
/// 2^-15): below 0 exactly when the codes ask for more than the whole code space
/// (over-subscribed), and otherwise the part of the code space left unused (0: complete).
pub proof fn lemma_construct_kraft(c: Seq<i16>, n: int)
    requires
        c.len() == 16,
        forall|k: int| 1 <= k <= 15 ==> #[trigger] c[k] >= 0,
        c[0] != n,
    ensures
        construct_result(c, n) < 0 <==> kraft_sum(c, 15) > 0x8000,
        construct_result(c, n) >= 0 ==> construct_result(c, n) == 0x8000 - kraft_sum(c, 15),
{
    lemma2_to64();
    assert(pow2(0) == 1);
    lemma_kraft_from(c, 1, 1);
}

proof fn lemma_sum_update(c: Seq<i16>, lo: int, hi: int, k: int, v: i16)
    requires
        lo <= k < hi <= c.len(),
        0 <= lo,
    ensures
        sum_range(c.update(k, v), lo, hi) == sum_range(c, lo, hi) - c[k] + v,
    decreases hi - lo,
{
    if hi - 1 > k {
        lemma_sum_update(c, lo, hi - 1, k, v);
    } else {
        lemma_sum_same(c, c.update(k, v), lo, hi - 1);
    }
}

proof fn lemma_sum_same(a: Seq<i16>, b: Seq<i16>, lo: int, hi: int)
    requires
        0 <= lo,
        hi <= a.len(),
        hi <= b.len(),
        forall|j: int| lo <= j < hi ==> a[j] == b[j],
    ensures
        sum_range(a, lo, hi) == sum_range(b, lo, hi),
    decreases hi - lo,
{
    if hi > lo {
        lemma_sum_same(a, b, lo, hi - 1);
    }
}

proof fn lemma_sum_split(c: Seq<i16>, lo: int, mid: int, hi: int)
    requires
        lo <= mid <= hi,
    ensures
        sum_range(c, lo, hi) == sum_range(c, lo, mid) + sum_range(c, mid, hi),
    decreases hi - mid,
{
    if hi > mid {
        lemma_sum_split(c, lo, mid, hi - 1);
    }
}

proof fn lemma_sum_nonneg(c: Seq<i16>, lo: int, hi: int)
    requires
        forall|j: int| lo <= j < hi ==> c[j] >= 0,
    ensures
        sum_range(c, lo, hi) >= 0,
    decreases hi - lo,
{
    if hi > lo {
        lemma_sum_nonneg(c, lo, hi - 1);
    }
}

proof fn lemma_count_len_mono(ls: Seq<i16>, off: int, k: int, n: int, l: int)
    requires
        0 <= k <= n,
    ensures
        0 <= count_len(ls, off, k, l) <= count_len(ls, off, n, l),
    decreases n - k,
{
    if k < n {
        lemma_count_len_mono(ls, off, k, n - 1, l);
    } else {
        lemma_count_len_nonneg(ls, off, k, l);
    }
}

proof fn lemma_count_len_le(ls: Seq<i16>, off: int, n: int, l: int)
    requires
        n >= 0,
    ensures
        count_len(ls, off, n, l) <= n,
    decreases n,
{
    if n > 0 {
        lemma_count_len_le(ls, off, n - 1, l);
    }
}

proof fn lemma_count_len_nonneg(ls: Seq<i16>, off: int, n: int, l: int)
    ensures
        count_len(ls, off, n, l) >= 0,
    decreases n,
{
    if n > 0 {
        lemma_count_len_nonneg(ls, off, n - 1, l);
    }
}

/// Canonical Huffman decoding tables: `count[l]` symbols have codes of length `l`, and
/// `symbol` lists them by code length, then by symbol value.
pub struct Huffman {
    count: Vec<i16>,
    symbol: Vec<i16>,
}

impl Huffman {
    pub closed spec fn counts(&self) -> Seq<i16> {
        self.count@
    }

    pub closed spec fn wf(&self) -> bool {
        &&& self.count@.len() == MAX_BITS + 1
        &&& self.symbol@.len() == FIX_LCODES
        &&& (forall|l: int| 0 <= l <= 15 ==> self.count@[l] >= 0)
        &&& sum_range(self.count@, 0, 16) <= FIX_LCODES
        &&& (forall|k: int| 0 <= k < FIX_LCODES ==> 0 <= #[trigger] self.symbol@[k] < FIX_LCODES)
    }

    pub fn new() -> (h: Self)
        ensures
            h.wf(),
            forall|l: int| 0 <= l <= 15 ==> h.counts()[l] == 0,
    {
        let h = Huffman { count: vec![0i16; 16], symbol: vec![0i16; 288] };
        proof {
            lemma_sum_same(h.count@, Seq::new(16, |i: int| 0i16), 0, 16);
            assert(sum_range(h.count@, 0, 16) == 0) by {
                lemma_sum_zero(h.count@, 0, 16);
            }
        }
        h
    }
}

proof fn lemma_sum_zero(c: Seq<i16>, lo: int, hi: int)
    requires
        forall|j: int| lo <= j < hi ==> c[j] == 0,
    ensures
        sum_range(c, lo, hi) == 0,
    decreases hi - lo,
{
    if hi > lo {
        lemma_sum_zero(c, lo, hi - 1);
    }
}

/// Builds the decoding tables from the `n` code lengths at `length[off..]`.
/// Returns 0 for a complete code set, above 0 for an incomplete one, below 0 for an over-subscribed one.
pub fn construct(h: &mut Huffman, length: &[i16], off: usize, n: usize) -> (r: i32)
    requires
        old(h).wf(),
        off + n <= length@.len(),
        n <= FIX_LCODES,
        forall|i: int| off <= i < off + n ==> 0 <= #[trigger] length@[i] <= 15,
    ensures
        final(h).wf(),
        forall|l: int| 0 <= l <= 15 ==> final(h).counts()[l] == count_len(length@, off as int, n as int, l),
        r == construct_result(final(h).counts(), n as int),
        r >= 0 ==> final(h).decodes(length@.subrange(off as int, off + n)),
        r < 0 ==> final(h).symbols() == old(h).symbols(),
        forall|k: int|
            sum_range(final(h).counts(), 1, 16) <= k < FIX_LCODES ==> final(h).symbols()[k] == old(h).symbols()[k],
{
    h.count = vec![0i16; 16];
    let ghost ls = length@;
    proof {
        assert forall|l: int| 0 <= l <= 15 implies h.count@[l] == count_len(ls, off as int, 0, l) by {}
        lemma_sum_zero(h.count@, 0, 16);
    }
    proof {
        assert forall|k: int| 0 <= k < FIX_LCODES implies 0 <= #[trigger] h.symbol@[k] < FIX_LCODES by {
            assert(old(h).symbol@[k] == h.symbol@[k]);
        }
    }
    let mut i: usize = 0;
    while i < n
        invariant
            ls == length@,
            off + n <= ls.len(),
            off + n <= length.len(),
            n <= FIX_LCODES,
            forall|i: int| off <= i < off + n ==> 0 <= #[trigger] ls[i] <= 15,
            h.count@.len() == 16,
            h.symbol@.len() == FIX_LCODES,
            forall|k: int| 0 <= k < FIX_LCODES ==> 0 <= #[trigger] h.symbol@[k] < FIX_LCODES,
            i <= n,
            h.symbol@ == old(h).symbol@,
            old(h).wf(),
            forall|l: int| 0 <= l <= 15 ==> h.count@[l] == count_len(ls, off as int, i as int, l),
            sum_range(h.count@, 0, 16) == i,
        decreases n - i,
    {
        let l = length[off + i];
        proof {
            lemma_count_len_mono(ls, off as int, i as int, n as int, l as int);
            lemma_count_len_le(ls, off as int, i as int, l as int);
            assert(count_len(ls, off as int, i as int + 1, l as int) == count_len(ls, off as int, i as int, l as int) + 1);
        }
        let ghost c0 = h.count@;
        let v = h.count[l as usize] + 1;
        h.count.set(l as usize, v);
        proof {
            lemma_sum_update(c0, 0, 16, l as int, v);
            assert(h.count@ == c0.update(l as int, v));
            assert forall|q: int| 0 <= q <= 15 implies h.count@[q] == count_len(ls, off as int, i + 1, q) by {
                assert(ls[off + (i + 1) - 1] == l);
                if q != l as int {
                    assert(h.count@[q] == c0[q]);
                    assert(count_len(ls, off as int, i + 1, q) == count_len(ls, off as int, i as int, q));
                } else {
                    assert(h.count@[q] == c0[q] + 1);
                }
            }
        }
        i += 1;
    }
    proof {
        assert forall|l: int| 0 <= l <= 15 implies h.count@[l] >= 0 by {
            lemma_count_len_nonneg(ls, off as int, n as int, l);
        }
    }
    if h.count[0] as usize == n {
        proof {
            lemma_all_of_len(ls, off as int, n as int, 0);
            lemma_codes_of_subrange(h, ls, off as int, n as int);
        }
        return 0;
    }
    let mut left: i32 = 1;
    let mut len: usize = 1;
    proof {
        lemma2_to64();
    }
    while len <= MAX_BITS
        invariant
            ls == length@,
            off + n <= ls.len(),
            off + n <= length.len(),
            n <= FIX_LCODES,
            forall|i: int| off <= i < off + n ==> 0 <= #[trigger] ls[i] <= 15,
            h.count@.len() == 16,
            h.symbol@.len() == FIX_LCODES,
            forall|k: int| 0 <= k < FIX_LCODES ==> 0 <= #[trigger] h.symbol@[k] < FIX_LCODES,
            forall|l: int| 0 <= l <= 15 ==> h.count@[l] >= 0,
            forall|l: int| 0 <= l <= 15 ==> h.count@[l] == count_len(ls, off as int, n as int, l),
            sum_range(h.count@, 0, 16) == n,
            h.count@[0] != n,
            1 <= len <= 16,
            0 <= left <= pow2((len - 1) as nat),
            pow2((len - 1) as nat) <= 0x8000,
            kraft_from(h.count@, len as int, left as int) == kraft_from(h.count@, 1, 1),
            forall|l: int| 0 <= l <= 15 ==> h.count@[l] >= 0,
            h.symbol@ == old(h).symbol@,
        decreases 16 - len,
    {
        proof {
            vstd::arithmetic::power2::lemma_pow2_unfold(len as nat);
            lemma2_to64();
            if len < 15 {
                vstd::arithmetic::power2::lemma_pow2_strictly_increases(len as nat, 15);
            }
        }
        left = left * 2;
        left = left - h.count[len] as i32;
        if left < 0 {
            return left;
        }
        len += 1;
    }
    // offsets of the first symbol of each length in `symbol`
    let mut offs: Vec<i16> = vec![0i16; 17];
    let mut len: usize = 1;
    proof {
        lemma_sum_nonneg(h.count@, 0, 16);
        lemma_sum_split(h.count@, 0, 1, 16);
    }
    while len < MAX_BITS
        invariant
            ls == length@,
            off + n <= ls.len(),
            off + n <= length.len(),
            n <= FIX_LCODES,
            forall|i: int| off <= i < off + n ==> 0 <= #[trigger] ls[i] <= 15,
            h.count@.len() == 16,
            h.symbol@.len() == FIX_LCODES,
            forall|k: int| 0 <= k < FIX_LCODES ==> 0 <= #[trigger] h.symbol@[k] < FIX_LCODES,
            forall|l: int| 0 <= l <= 15 ==> h.count@[l] >= 0,
            forall|l: int| 0 <= l <= 15 ==> h.count@[l] == count_len(ls, off as int, n as int, l),
            sum_range(h.count@, 0, 16) == n,
            h.count@[0] != n,
            left == kraft_from(h.count@, 1, 1),
            1 <= len <= 15,
            offs@.len() == 17,
            forall|l: int| 1 <= l <= len ==> offs@[l] == sum_range(h.count@, 1, l),
            h.symbol@ == old(h).symbol@,
        decreases 15 - len,
    {
        proof {
            lemma_sum_split(h.count@, 1, len as int + 1, 16);
            lemma_sum_split(h.count@, 0, 1, 16);
            lemma_sum_nonneg(h.count@, len as int + 1, 16);
            lemma_sum_nonneg(h.count@, 1, len as int);
            assert(sum_range(h.count@, 0, 0) == 0);
            assert(sum_range(h.count@, 0, 1) == h.count@[0]);
            assert(sum_range(h.count@, 1, len + 1) == sum_range(h.count@, 1, len as int) + h.count@[len as int]);
        }
        let v = offs[len] + h.count[len];
        offs.set(len + 1, v);
        len += 1;
    }
    let mut sym: usize = 0;
    while sym < n
        invariant
            ls == length@,
            off + n <= ls.len(),
            off + n <= length.len(),
            n <= FIX_LCODES,
            forall|i: int| off <= i < off + n ==> 0 <= #[trigger] ls[i] <= 15,
            h.count@.len() == 16,
            h.symbol@.len() == FIX_LCODES,
            forall|k: int| 0 <= k < FIX_LCODES ==> 0 <= #[trigger] h.symbol@[k] < FIX_LCODES,
            forall|l: int| 0 <= l <= 15 ==> h.count@[l] >= 0,
            forall|l: int| 0 <= l <= 15 ==> h.count@[l] == count_len(ls, off as int, n as int, l),
            sum_range(h.count@, 0, 16) == n,
            h.count@[0] != n,
            left == kraft_from(h.count@, 1, 1),
            sym <= n,
            offs@.len() == 17,
            forall|l: int| 1 <= l <= 15 ==> offs@[l] == sum_range(h.count@, 1, l) + count_len(ls, off as int, sym as int, l),
            forall|k: int| 0 <= k < FIX_LCODES ==> 0 <= #[trigger] h.symbol@[k] < FIX_LCODES,
            forall|s: int|
                0 <= s < sym && ls[off + s] != 0 ==> h.symbol@[sum_range(h.count@, 1, ls[off + s] as int)
                    + #[trigger] count_len(ls, off as int, s, ls[off + s] as int)] == s,
            forall|k: int| sum_range(h.count@, 1, 16) <= k < FIX_LCODES ==> h.symbol@[k] == old(h).symbol@[k],
        decreases n - sym,
    {
        let l = length[off + sym];
        if l != 0 {
            let ghost L = l as int;
            proof {
                lemma_count_len_mono(ls, off as int, sym as int + 1, n as int, L);
                lemma_sum_split(h.count@, 1, L, L + 1);
                lemma_sum_split(h.count@, 1, L + 1, 16);
                lemma_sum_split(h.count@, 0, 1, 16);
                lemma_sum_nonneg(h.count@, L + 1, 16);
                lemma_count_len_nonneg(ls, off as int, sym as int, L);
                lemma_sum_nonneg(h.count@, 1, L);
                assert(count_len(ls, off as int, sym + 1, L) == count_len(ls, off as int, sym as int, L) + 1);
                assert(offs@[L] < sum_range(h.count@, 1, L + 1));
                assert(sum_range(h.count@, 0, 0) == 0);
                assert(sum_range(h.count@, 0, 1) == h.count@[0]);
                assert(sum_range(h.count@, 1, L + 1) <= n);
            }
            let o = offs[l as usize];
            let ghost before = h.symbol@;
            h.symbol.set(o as usize, sym as i16);
            offs.set(l as usize, o + 1);
            proof {
                assert forall|t: int|
                    0 <= t < sym + 1 && ls[off + t] != 0 implies h.symbol@[sum_range(h.count@, 1, ls[off + t] as int)
                        + #[trigger] count_len(ls, off as int, t, ls[off + t] as int)] == t by {
                    let lt = ls[off + t] as int;
                    let slot = sum_range(h.count@, 1, lt) + count_len(ls, off as int, t, lt);
                    if t < sym {
                        lemma_slots_differ(h.count@, ls, off as int, n as int, t, sym as int);
                        lemma_rank_below_count(ls, off as int, t, n as int);
                        lemma_count_len_nonneg(ls, off as int, t, lt);
                        lemma_sum_split(h.count@, 1, lt, lt + 1);
                        lemma_sum_split(h.count@, 1, lt + 1, 16);
                        lemma_sum_nonneg(h.count@, lt + 1, 16);
                        lemma_sum_nonneg(h.count@, 1, lt);
                        lemma_sum_split(h.count@, 0, 1, 16);
                        assert(sum_range(h.count@, 0, 1) == h.count@[0]) by {
                            assert(sum_range(h.count@, 0, 0) == 0);
                        }
                        assert(0 <= slot < FIX_LCODES);
                        assert(before[slot] == t);
                        assert(slot != o as int);
                        assert(h.symbol@[slot] == before[slot]);
                    } else {
                        assert(t == sym);
                        assert(o as int == slot);
                    }
                }
                assert forall|q: int| 1 <= q <= 15 implies offs@[q] == sum_range(h.count@, 1, q) + count_len(ls, off as int, sym + 1, q) by {
                    if q != L {
                        assert(ls[off + (sym + 1) - 1] != q);
                    }
                }
            }
        } else {
            proof {
                assert forall|q: int| 1 <= q <= 15 implies offs@[q] == sum_range(h.count@, 1, q) + count_len(ls, off as int, sym + 1, q) by {
                    assert(ls[off + (sym + 1) - 1] != q);
                }
            }
        }
        sym += 1;
    }
    proof {
        lemma_codes_of_subrange(h, ls, off as int, n as int);
    }
    left
}

/// When all `n` lengths counted equal `l`, each of them does.
proof fn lemma_all_of_len(ls: Seq<i16>, off: int, n: int, l: int)
    requires
        n >= 0,
        count_len(ls, off, n, l) == n,
    ensures
        forall|i: int| off <= i < off + n ==> #[trigger] ls[i] == l,
    decreases n,
{
    if n > 0 {
        lemma_count_len_le(ls, off, n - 1, l);
        lemma_all_of_len(ls, off, n - 1, l);
    }
}

/// The tables that `construct` filled for `ls[off..off + n]` decode that code.
proof fn lemma_codes_of_subrange(h: &Huffman, ls: Seq<i16>, off: int, n: int)
    requires
        h.wf(),
        0 <= off,
        0 <= n <= FIX_LCODES,
        off + n <= ls.len(),
        forall|i: int| off <= i < off + n ==> 0 <= #[trigger] ls[i] <= 15,
        forall|l: int| 0 <= l <= 15 ==> h.counts()[l] == count_len(ls, off, n, l),
        forall|s: int|
            0 <= s < n && ls[off + s] != 0 ==> h.symbols()[sum_range(h.counts(), 1, ls[off + s] as int)
                + #[trigger] count_len(ls, off, s, ls[off + s] as int)] == s,
    ensures
        h.decodes(ls.subrange(off, off + n)),
{
    let sub = ls.subrange(off, off + n);
    assert forall|l: int| 0 <= l < 16 implies h.counts()[l] == len_counts(sub)[l] by {
        lemma_count_len_shift(ls, off, n, n, l);
        lemma_count_len_le(ls, off, n, l);
        lemma_count_len_nonneg(ls, off, n, l);
    }
    assert(h.counts() =~= len_counts(sub));
    assert forall|s: int|
        0 <= s < sub.len() && sub[s] != 0 implies h.symbols()[sum_range(h.counts(), 1, sub[s] as int)
            + count_len(sub, 0, s, sub[s] as int)] == s by {
        assert(sub[s] == ls[off + s]);
        lemma_count_len_shift(ls, off, n, s, sub[s] as int);
    }
    assert(lengths_ok(sub)) by {
        assert forall|i: int| 0 <= i < sub.len() implies 0 <= #[trigger] sub[i] <= 15 by {
            assert(sub[i] == ls[off + i]);
        }
    }
}

impl Huffman {
    pub closed spec fn symbols(&self) -> Seq<i16> {
        self.symbol@
    }
}

/// The symbol whose code has length `l` and comes `k`-th among the codes of that length, for
/// code lengths `ls`: canonical codes of one length go to the symbols in increasing order.
pub open spec fn sym_with_rank(ls: Seq<i16>, l: int, k: int) -> int {
    choose|s: int| 0 <= s < ls.len() && ls[s] == l && count_len(ls, 0, s, l) == k
}

/// How many of the code lengths `ls` equal `l`, for each `l` in 0..=15.
pub open spec fn len_counts(ls: Seq<i16>) -> Seq<i16> {
    Seq::new(16, |l: int| count_len(ls, 0, ls.len() as int, l) as i16)
}

/// Reading a canonical code bit by bit from bit `pos` of `d`, most significant bit first:
/// `code` holds the bits read so far (shifted) and `first` the first code of length `len`
/// (with `counts[l]` codes of each length `l`). Gives the length of the code found, its rank
/// among the codes of that length, and the bit position after it; None when the input runs
/// out or no code of at most 15 bits matches.
pub open spec fn code_walk(counts: Seq<i16>, d: Seq<u8>, pos: int, len: int, code: int, first: int) -> Option<(int, int, int)>
    decreases 16 - len,
{
    if len < 1 || len > 15 || pos < 0 || pos >= 8 * d.len() {
        None
    } else {
        let c = code + bit_at(d, pos);
        if c - counts[len] < first {
            Some((len, c - first, pos + 1))
        } else {
            code_walk(counts, d, pos + 1, len + 1, 2 * c, 2 * (first + counts[len]))
        }
    }
}

/// The symbol of the canonical code with code lengths `ls` that starts at bit `pos`, and the
/// bit position after it.
pub open spec fn canon_decode(ls: Seq<i16>, d: Seq<u8>, pos: int) -> Option<(int, int)> {
    match code_walk(len_counts(ls), d, pos, 1, 0, 0) {
        Some((l, k, p)) => Some((sym_with_rank(ls, l, k), p)),
        None => None,
    }
}

impl Huffman {
    /// The tables decode the canonical code with code lengths `ls`.
    pub open spec fn decodes(&self, ls: Seq<i16>) -> bool {
        &&& self.wf()
        &&& ls.len() <= FIX_LCODES
        &&& lengths_ok(ls)
        &&& self.counts() =~= len_counts(ls)
        &&& forall|s: int|
            0 <= s < ls.len() && ls[s] != 0 ==> self.symbols()[sum_range(self.counts(), 1, ls[s] as int)
                + count_len(ls, 0, s, ls[s] as int)] == s
    }
}


/// A symbol of length `l` is preceded by fewer symbols of that length than there are in all.
proof fn lemma_rank_below_count(ls: Seq<i16>, off: int, s: int, n: int)
    requires
        0 <= s < n,
    ensures
        count_len(ls, off, s, ls[off + s] as int) < count_len(ls, off, n, ls[off + s] as int),
{
    lemma_count_len_mono(ls, off, s + 1, n, ls[off + s] as int);
}

/// There is a symbol of length `l` and rank `k` when fewer than `k` + 1 ... precede the end.
proof fn lemma_rank_exists(ls: Seq<i16>, l: int, k: int, m: int)
    requires
        0 <= m <= ls.len(),
        0 <= k < count_len(ls, 0, m, l),
    ensures
        exists|s: int| 0 <= s < m && ls[s] == l && count_len(ls, 0, s, l) == k,
    decreases m,
{
    if m > 0 {
        if count_len(ls, 0, m - 1, l) > k {
            lemma_rank_exists(ls, l, k, m - 1);
            let s = choose|s: int| 0 <= s < m - 1 && ls[s] == l && count_len(ls, 0, s, l) == k;
            assert(0 <= s < m && ls[s] == l && count_len(ls, 0, s, l) == k);
        } else {
            assert(count_len(ls, 0, m, l) == count_len(ls, 0, m - 1, l) + if ls[m - 1] == l { 1int } else { 0int });
            lemma_count_len_nonneg(ls, 0, m - 1, l);
            assert(ls[m - 1] == l && count_len(ls, 0, m - 1, l) == k);
        }
    }
}

/// The rank of a symbol among those of its length determines it: no two symbols of one length
/// get the same canonical code.
pub proof fn lemma_rank_unique(ls: Seq<i16>, l: int, s1: int, s2: int)
    requires
        0 <= s1 < ls.len(),
        0 <= s2 < ls.len(),
        ls[s1] == l,
        ls[s2] == l,
        count_len(ls, 0, s1, l) == count_len(ls, 0, s2, l),
    ensures
        s1 == s2,
{
    if s1 < s2 {
        lemma_count_len_mono(ls, 0, s1 + 1, s2, l);
    } else if s2 < s1 {
        lemma_count_len_mono(ls, 0, s2 + 1, s1, l);
    }
}

/// The symbol that a rank names has that length and that rank.
pub proof fn lemma_sym_with_rank(ls: Seq<i16>, l: int, k: int)
    requires
        0 <= k < count_len(ls, 0, ls.len() as int, l),
    ensures
        0 <= sym_with_rank(ls, l, k) < ls.len(),
        ls[sym_with_rank(ls, l, k)] == l,
        count_len(ls, 0, sym_with_rank(ls, l, k), l) == k,
{
    lemma_rank_exists(ls, l, k, ls.len() as int);
}

/// While walking a code, `first <= code`; a code found has a rank below the number of codes
/// of its length, a length in 1..=15, and ends `len` bits on.
proof fn lemma_code_walk(counts: Seq<i16>, d: Seq<u8>, pos: int, len: int, code: int, first: int)
    requires
        counts.len() == 16,
        forall|l: int| 0 <= l <= 15 ==> counts[l] >= 0,
        0 <= first <= code,
        1 <= len,
    ensures
        match code_walk(counts, d, pos, len, code, first) {
            Some((l, k, p)) => len <= l <= 15 && 0 <= k < counts[l] && p == pos + (l - len) + 1,
            None => true,
        },
    decreases 16 - len,
{
    if !(len < 1 || len > 15 || pos < 0 || pos >= 8 * d.len()) {
        let c = code + bit_at(d, pos);
        assert(0 <= bit_at(d, pos) <= 1) by {
            let b = d[pos / 8];
            let k = (pos % 8) as u8;
            assert((b >> k) & 1u8 <= 1u8) by (bit_vector);
        }
        if !(c - counts[len] < first) {
            lemma_code_walk(counts, d, pos + 1, len + 1, 2 * c, 2 * (first + counts[len]));
        }
    }
}

/// Two symbols with codes take different places in the symbol table.
proof fn lemma_slots_differ(c: Seq<i16>, ls: Seq<i16>, off: int, n: int, s1: int, s2: int)
    requires
        c.len() == 16,
        forall|l: int| 0 <= l <= 15 ==> c[l] >= 0,
        forall|l: int| 0 <= l <= 15 ==> c[l] == count_len(ls, off, n, l),
        0 <= s1 < s2 < n,
        1 <= ls[off + s1] <= 15,
        1 <= ls[off + s2] <= 15,
    ensures
        sum_range(c, 1, ls[off + s1] as int) + count_len(ls, off, s1, ls[off + s1] as int)
            != sum_range(c, 1, ls[off + s2] as int) + count_len(ls, off, s2, ls[off + s2] as int),
{
    let l1 = ls[off + s1] as int;
    let l2 = ls[off + s2] as int;
    lemma_count_len_nonneg(ls, off, s1, l1);
    lemma_count_len_nonneg(ls, off, s2, l2);
    if l1 == l2 {
        lemma_count_len_mono(ls, off, s1 + 1, s2, l1);
    } else if l1 < l2 {
        lemma_rank_below_count(ls, off, s1, n);
        lemma_sum_split(c, 1, l1 + 1, l2);
        lemma_sum_nonneg(c, l1 + 1, l2);
    } else {
        lemma_rank_below_count(ls, off, s2, n);
        lemma_sum_split(c, 1, l2 + 1, l1);
        lemma_sum_nonneg(c, l2 + 1, l1);
    }
}

proof fn lemma_count_len_shift(ls: Seq<i16>, off: int, n: int, k: int, l: int)
    requires
        0 <= off,
        0 <= k <= n,
        off + n <= ls.len(),
    ensures
        count_len(ls, off, k, l) == count_len(ls.subrange(off, off + n), 0, k, l),
    decreases k,
{
    if k > 0 {
        lemma_count_len_shift(ls, off, n, k - 1, l);
    }
}

/// A code found ends after at least one bit and within the input.
pub proof fn lemma_code_walk_pos(counts: Seq<i16>, d: Seq<u8>, pos: int, len: int, code: int, first: int)
    ensures
        match code_walk(counts, d, pos, len, code, first) {
            Some((l, k, p)) => pos < p <= 8 * d.len() && p == pos + (l - len) + 1,
            None => true,
        },
    decreases 16 - len,
{
    if !(len < 1 || len > 15 || pos < 0 || pos >= 8 * d.len()) {
        let c = code + bit_at(d, pos);
        if !(c - counts[len] < first) {
            lemma_code_walk_pos(counts, d, pos + 1, len + 1, 2 * c, 2 * (first + counts[len]));
        }
    }
}

/// With tables for lengths `ls`, the table entry of a code found is the symbol of that code.
pub proof fn lemma_table_lookup(h: Huffman, ls: Seq<i16>, l: int, k: int)
    requires
        h.decodes(ls),
        1 <= l <= 15,
        0 <= k < h.counts()[l],
    ensures
        h.symbols()[sum_range(h.counts(), 1, l) + k] == sym_with_rank(ls, l, k),
{
    lemma_count_len_le(ls, 0, ls.len() as int, l);
    lemma_count_len_nonneg(ls, 0, ls.len() as int, l);
    assert(h.counts()[l] == len_counts(ls)[l]);
    assert(h.counts()[l] == count_len(ls, 0, ls.len() as int, l));
    lemma_sym_with_rank(ls, l, k);
    let s = sym_with_rank(ls, l, k);
    assert(ls[s] == l);
}

/// Decodes one symbol with the canonical code `h`, reading its code bits most significant first.
/// Answers -1 when the input runs out or no code of up to 15 bits matches.
#[verifier::spinoff_prover]
#[verifier::rlimit(40)]
pub fn decode(br: &mut BitReader, h: &Huffman) -> (r: i32)
    requires
        old(br).wf(),
        h.wf(),
    ensures
        final(br).wf(),
        final(br).input() == old(br).input(),
        -1 <= r < FIX_LCODES,
        old(br).failed() ==> r == -1 && final(br).failed(),
        r >= 0 ==> !final(br).failed() && old(br).bitpos() < final(br).bitpos() <= old(br).bitpos() + 15,
        r >= 0 ==> exists|k: int| 0 <= k < FIX_LCODES && h.symbols()[k] == r,
        !old(br).failed() ==> match code_walk(h.counts(), old(br).input(), old(br).bitpos(), 1, 0, 0) {
            Some((l, k, p)) => r == h.symbols()[sum_range(h.counts(), 1, l) + k] && r >= 0
                && !final(br).failed() && final(br).bitpos() == p,
            None => r == -1,
        },
{
    let ghost d = br.input();
    let ghost bp0 = br.bitpos();
    let mut code: i32 = 0;
    let mut first: i32 = 0;
    let mut index: i32 = 0;
    let mut len: usize = 1;
    proof {
        lemma2_to64();
        assert(sum_range(h.count@, 1, 1) == 0);
    }
    while len <= MAX_BITS
        invariant
            br.wf(),
            br.input() == old(br).input(),
            old(br).failed() ==> br.failed() && len == 1,
            !old(br).failed() ==> !br.failed() && br.bitpos() == old(br).bitpos() + len - 1,
            h.wf(),
            1 <= len <= 16,
            0 <= first <= code,
            code % 2 == 0,
            code < pow2(len as nat),
            pow2(len as nat) <= 0x10000,
            index == sum_range(h.count@, 1, len as int),
            0 <= index <= FIX_LCODES,
            d == old(br).input(),
            bp0 == old(br).bitpos(),
            !old(br).failed() ==> code_walk(h.count@, d, bp0, 1, 0, 0) == code_walk(
                h.count@,
                d,
                br.bitpos(),
                len as int,
                code as int,
                first as int,
            ),
        decreases 16 - len,
    {
        let ghost pos = br.bitpos();
        let b = br.bits(1);
        if br.error {
            return -1;
        }
        proof {
            reveal_with_fuel(bits_val, 2);
        }
        proof {
            lemma2_to64();
            assert(0 <= b <= 1);
            assert(code | b == code + b) by (bit_vector)
                requires code % 2 == 0, 0 <= b <= 1, code >= 0;
        }
        code = code | b;
        let count = h.count[len] as i32;
        proof {
            lemma_sum_split(h.count@, 1, len as int + 1, 16);
            lemma_sum_split(h.count@, 0, 1, 16);
            lemma_sum_nonneg(h.count@, len as int + 1, 16);
            lemma_sum_nonneg(h.count@, 1, len as int);
            assert(sum_range(h.count@, 0, 0) == 0);
            assert(sum_range(h.count@, 0, 1) == h.count@[0]);
            assert(sum_range(h.count@, 1, len + 1) == index + count);
        }
        if code - count < first {
            let k = (index + (code - first)) as usize;
            let r = h.symbol[k] as i32;
            assert(h.symbols()[k as int] == r);
            return r;
        }
        index += count;
        first += count;
        proof {
            vstd::arithmetic::power2::lemma_pow2_unfold(len as nat + 1);
            if len < 15 {
                vstd::arithmetic::power2::lemma_pow2_strictly_increases(len as nat + 1, 16);
            }
        }
        first = first * 2;
        code = code * 2;
        len += 1;
    }
    -1
}

pub const LENS: [i16; 29] = [
    3, 4, 5, 6, 7, 8, 9, 10, 11, 13, 15, 17, 19, 23, 27, 31, 35, 43, 51, 59, 67, 83, 99, 115, 131,
    163, 195, 227, 258,
];

pub const LEXT: [i16; 29] = [
    0, 0, 0, 0, 0, 0, 0, 0, 1, 1, 1, 1, 2, 2, 2, 2, 3, 3, 3, 3, 4, 4, 4, 4, 5, 5, 5, 5, 0,
];

pub const DISTS: [i16; 30] = [
    1, 2, 3, 4, 5, 7, 9, 13, 17, 25, 33, 49, 65, 97, 129, 193, 257, 385, 513, 769, 1025, 1537,
    2049, 3073, 4097, 6145, 8193, 12289, 16385, 24577,
];

pub const DEXT: [i16; 30] = [
    0, 0, 0, 0, 1, 1, 2, 2, 3, 3, 4, 4, 5, 5, 6, 6, 7, 7, 8, 8, 9, 9, 10, 10, 11, 11, 12, 12, 13,
    13,
];

/// The ranges of the length and distance tables of RFC 1951.
pub proof fn lemma_tables()
    ensures
        forall|i: int| 0 <= i < 29 ==> 3 <= #[trigger] LENS@[i] <= 258 && 0 <= LEXT@[i] <= 5,
        forall|i: int| 0 <= i < 30 ==> 1 <= #[trigger] DISTS@[i] <= 24577 && 0 <= DEXT@[i] <= 13,
        LENS@ == seq![3i16, 4, 5, 6, 7, 8, 9, 10, 11, 13, 15, 17, 19, 23, 27, 31, 35, 43, 51, 59, 67, 83, 99, 115, 131, 163, 195, 227, 258],
        LEXT@ == seq![0i16, 0, 0, 0, 0, 0, 0, 0, 1, 1, 1, 1, 2, 2, 2, 2, 3, 3, 3, 3, 4, 4, 4, 4, 5, 5, 5, 5, 0],
        DISTS@ == seq![1i16, 2, 3, 4, 5, 7, 9, 13, 17, 25, 33, 49, 65, 97, 129, 193, 257, 385, 513, 769, 1025, 1537, 2049, 3073, 4097, 6145, 8193, 12289, 16385, 24577],
        DEXT@ == seq![0i16, 0, 0, 0, 1, 1, 2, 2, 3, 3, 4, 4, 5, 5, 6, 6, 7, 7, 8, 8, 9, 9, 10, 10, 11, 11, 12, 12, 13, 13],
{
    assert(LENS@ =~= seq![3i16, 4, 5, 6, 7, 8, 9, 10, 11, 13, 15, 17, 19, 23, 27, 31, 35, 43, 51, 59, 67, 83, 99, 115, 131, 163, 195, 227, 258]);
    assert(LEXT@ =~= seq![0i16, 0, 0, 0, 0, 0, 0, 0, 1, 1, 1, 1, 2, 2, 2, 2, 3, 3, 3, 3, 4, 4, 4, 4, 5, 5, 5, 5, 0]);
    assert(DISTS@ =~= seq![1i16, 2, 3, 4, 5, 7, 9, 13, 17, 25, 33, 49, 65, 97, 129, 193, 257, 385, 513, 769, 1025, 1537, 2049, 3073, 4097, 6145, 8193, 12289, 16385, 24577]);
    assert(DEXT@ =~= seq![0i16, 0, 0, 0, 1, 1, 2, 2, 3, 3, 4, 4, 5, 5, 6, 6, 7, 7, 8, 8, 9, 9, 10, 10, 11, 11, 12, 12, 13, 13]);
}

impl<'a> BitReader<'a> {
    /// The index of the next byte not yet loaded into the bit buffer.
    pub closed spec fn byte_pos(&self) -> int {
        self.pos as int
    }

    /// Without a failure, the next byte is the first one not yet begun.
    pub proof fn lemma_byte_pos(&self)
        requires
            self.wf(),
            !self.failed(),
        ensures
            self.byte_pos() == (self.bitpos() + 7) / 8,
            self.bitpos() >= 0,
    {
    }
}

/// What the table lookup of a decoded code gives is the canonical decoding of the code.
proof fn lemma_decode_canon(h: Huffman, ls: Seq<i16>, d: Seq<u8>, pos: int)
    requires
        h.decodes(ls),
    ensures
        match code_walk(h.counts(), d, pos, 1, 0, 0) {
            Some((l, k, p)) => canon_decode(ls, d, pos) == Some(
                (h.symbols()[sum_range(h.counts(), 1, l) + k] as int, p),
            ),
            None => canon_decode(ls, d, pos) is None,
        },
{
    assert(h.counts() == len_counts(ls));
    lemma_code_walk(h.counts(), d, pos, 1, 0, 0);
    match code_walk(h.counts(), d, pos, 1, 0, 0) {
        Some((l, k, p)) => {
            lemma_table_lookup(h, ls, l, k);
        },
        None => {},
    }
}

/// The `n` bits from bit `pos` on, when the input holds them.
pub open spec fn read_bits(d: Seq<u8>, pos: int, n: int) -> Option<int> {
    if 0 <= pos && pos + n <= 8 * d.len() {
        Some(bits_val(d, pos, n))
    } else {
        None
    }
}

/// `out` followed by `len` bytes copied one at a time from `dist` bytes back, so that a copy
/// overlapping its own output repeats it.
pub open spec fn copy_back(out: Seq<u8>, dist: int, len: int) -> Seq<u8>
    decreases len,
{
    if len <= 0 {
        out
    } else {
        copy_back(out.push(out[out.len() - dist]), dist, len - 1)
    }
}

/// A copy of `len` bytes from `dist` back appends `len` bytes, each equal to the byte `dist`
/// before it (so an overlapping copy repeats what it has just written).
pub proof fn lemma_copy_back_repeats(out: Seq<u8>, dist: int, len: int)
    requires
        1 <= dist <= out.len(),
        0 <= len,
    ensures
        copy_back(out, dist, len).len() == out.len() + len,
        copy_back(out, dist, len).take(out.len() as int) == out,
        forall|i: int| out.len() <= i < out.len() + len ==> #[trigger] copy_back(out, dist, len)[i]
            == copy_back(out, dist, len)[i - dist],
    decreases len,
{
    if len > 0 {
        let o2 = out.push(out[out.len() - dist]);
        lemma_copy_back_repeats(o2, dist, len - 1);
        let r = copy_back(out, dist, len);
        assert(r == copy_back(o2, dist, len - 1));
        assert(r.take(out.len() as int) =~= out) by {
            assert(r.take(o2.len() as int) == o2);
            assert forall|i: int| 0 <= i < out.len() implies r[i] == out[i] by {
                assert(r[i] == r.take(o2.len() as int)[i]);
            }
        }
        assert(r[out.len() as int] == r.take(o2.len() as int)[out.len() as int]);
        assert(r[out.len() - dist] == r.take(out.len() as int)[out.len() - dist]);
    } else {
        assert(out.take(out.len() as int) =~= out);
    }
}

/// A literal symbol (below 256) in compressed data appends that byte and decoding goes on
/// after its code; the end-of-block symbol 256 ends the block with the output as it is.
pub proof fn lemma_literal_and_end_of_block(lls: Seq<i16>, dls: Seq<i16>, d: Seq<u8>, pos: int, out: Seq<u8>, cap: int, sym: int, p1: int)
    requires
        canon_decode(lls, d, pos) == Some((sym, p1)),
        0 <= sym <= 256,
        cap == 0 || out.len() + 1 <= cap,
    ensures
        sym < 256 ==> block_data(lls, dls, d, pos, out, cap) == block_data(lls, dls, d, p1, out.push(sym as u8), cap)
            && out.push(sym as u8).last() as int == sym,
        sym == 256 ==> block_data(lls, dls, d, pos, out, cap) == Some((p1, out)),
{
    lemma_code_walk_pos(len_counts(lls), d, pos, 1, 0, 0);
}

/// A match in compressed data (a length symbol 257..285 with its extra bits, then a distance
/// code `ds` with its extra bits `e2`) copies from `DISTS[ds] + e2` bytes back, the whole
/// extra value counting, as RFC 1951 (3.2.5) says: the output goes on exactly as from the
/// output with that copy made, each copied byte equal to the byte that distance before it.
pub proof fn lemma_match_copies_from_its_distance(
    lls: Seq<i16>,
    dls: Seq<i16>,
    d: Seq<u8>,
    pos: int,
    out: Seq<u8>,
    cap: int,
    sym: int,
    p1: int,
    e: int,
    ds: int,
    p2: int,
    e2: int,
)
    requires
        canon_decode(lls, d, pos) == Some((sym, p1)),
        257 <= sym < 286,
        read_bits(d, p1, LEXT@[sym - 257] as int) == Some(e),
        canon_decode(dls, d, p1 + LEXT@[sym - 257]) == Some((ds, p2)),
        0 <= ds < 30,
        read_bits(d, p2, DEXT@[ds] as int) == Some(e2),
        DISTS@[ds] + e2 <= out.len(),
        cap == 0 || out.len() + LENS@[sym - 257] + e <= cap,
    ensures
        ({
            let dist = DISTS@[ds] + e2;
            let len = LENS@[sym - 257] + e;
            let out1 = copy_back(out, dist, len);
            &&& block_data(lls, dls, d, pos, out, cap) == block_data(lls, dls, d, p2 + DEXT@[ds], out1, cap)
            &&& out1.len() == out.len() + len
            &&& out1.take(out.len() as int) == out
            &&& forall|i: int| out.len() <= i < out1.len() ==> #[trigger] out1[i] == out1[i - dist]
        }),
{
    lemma_tables();
    lemma_code_walk_pos(len_counts(lls), d, pos, 1, 0, 0);
    lemma_code_walk_pos(len_counts(dls), d, p1 + LEXT@[sym - 257], 1, 0, 0);
    let s = sym - 257;
    assert(0 <= s < 29);
    assert(1 <= DISTS@[ds]);
    lemma_bits_bound(d, p1, LEXT@[s] as int);
    lemma_bits_bound(d, p2, DEXT@[ds] as int);
    assert(0 <= e && 0 <= e2);
    lemma_copy_back_repeats(out, DISTS@[ds] + e2, LENS@[s] + e);
}

/// The data of a compressed block from bit `pos` on, with literal/length code lengths `lls` and
/// distance code lengths `dls`, appended to `out`: the bit position after the end-of-block code
/// and the output, or None when the data is malformed, runs out, or grows past `cap` (0: no cap).
pub open spec fn block_data(lls: Seq<i16>, dls: Seq<i16>, d: Seq<u8>, pos: int, out: Seq<u8>, cap: int) -> Option<(int, Seq<u8>)>
    decreases 8 * d.len() - pos,
{
    match canon_decode(lls, d, pos) {
        None => None,
        Some((sym, p1)) => {
            proof {
                lemma_code_walk_pos(len_counts(lls), d, pos, 1, 0, 0);
            }
            if sym < 256 {
                let out1 = out.push(sym as u8);
                if cap != 0 && out1.len() > cap {
                    None
                } else {
                    block_data(lls, dls, d, p1, out1, cap)
                }
            } else if sym == 256 {
                Some((p1, out))
            } else if sym - 257 >= 29 {
                None
            } else {
                let s = sym - 257;
                match read_bits(d, p1, LEXT@[s] as int) {
                    None => None,
                    Some(e) => {
                        let len = LENS@[s] + e;
                        match canon_decode(dls, d, p1 + LEXT@[s]) {
                            None => None,
                            Some((ds, p2)) => {
                                proof {
                                    lemma_code_walk_pos(len_counts(dls), d, p1 + LEXT@[s], 1, 0, 0);
                                }
                                if ds < 0 || ds >= 30 {
                                    None
                                } else {
                                    match read_bits(d, p2, DEXT@[ds] as int) {
                                        None => None,
                                        Some(e2) => {
                                            let dist = DISTS@[ds] + e2;
                                            let out1 = copy_back(out, dist, len);
                                            if dist > out.len() {
                                                None
                                            } else if cap != 0 && out1.len() > cap {
                                                None
                                            } else {
                                                block_data(lls, dls, d, p2 + DEXT@[ds], out1, cap)
                                            }
                                        },
                                    }
                                }
                            },
                        }
                    },
                }
            }
        },
    }
}

/// The output that decoding a compressed block's data from bit `pos` leaves, `out` before: the
/// output of `block_data` when the block is well formed, else the output as it stood when
/// decoding stopped (a literal or a copy that passed `cap` is kept; a symbol that could not be
/// read, or a distance reaching before the start of the output, adds nothing).
pub open spec fn block_out(lls: Seq<i16>, dls: Seq<i16>, d: Seq<u8>, pos: int, out: Seq<u8>, cap: int) -> Seq<u8>
    decreases 8 * d.len() - pos,
{
    match canon_decode(lls, d, pos) {
        None => out,
        Some((sym, p1)) => {
            proof {
                lemma_code_walk_pos(len_counts(lls), d, pos, 1, 0, 0);
            }
            if sym < 256 {
                let out1 = out.push(sym as u8);
                if cap != 0 && out1.len() > cap {
                    out1
                } else {
                    block_out(lls, dls, d, p1, out1, cap)
                }
            } else if sym == 256 {
                out
            } else if sym - 257 >= 29 {
                out
            } else {
                let s = sym - 257;
                match read_bits(d, p1, LEXT@[s] as int) {
                    None => out,
                    Some(e) => {
                        let len = LENS@[s] + e;
                        match canon_decode(dls, d, p1 + LEXT@[s]) {
                            None => out,
                            Some((ds, p2)) => {
                                proof {
                                    lemma_code_walk_pos(len_counts(dls), d, p1 + LEXT@[s], 1, 0, 0);
                                }
                                if ds < 0 || ds >= 30 {
                                    out
                                } else {
                                    match read_bits(d, p2, DEXT@[ds] as int) {
                                        None => out,
                                        Some(e2) => {
                                            let dist = DISTS@[ds] + e2;
                                            let out1 = copy_back(out, dist, len);
                                            if dist > out.len() {
                                                out
                                            } else if cap != 0 && out1.len() > cap {
                                                out1
                                            } else {
                                                block_out(lls, dls, d, p2 + DEXT@[ds], out1, cap)
                                            }
                                        },
                                    }
                                }
                            },
                        }
                    },
                }
            }
        },
    }
}

/// `out` grew: its old contents are a prefix of the new ones.
pub open spec fn extends(old_out: Seq<u8>, new_out: Seq<u8>) -> bool {
    old_out.len() <= new_out.len() && new_out.subrange(0, old_out.len() as int) == old_out
}

/// Decodes literal/length and distance symbols until the end-of-block symbol.
fn codes(
    br: &mut BitReader,
    out: &mut Vec<u8>,
    lencode: &Huffman,
    distcode: &Huffman,
    cap: usize,
    Ghost(lls): Ghost<Seq<i16>>,
    Ghost(dls): Ghost<Seq<i16>>,
) -> (ok: bool)
    requires
        old(br).wf(),
        !old(br).failed(),
        lencode.decodes(lls),
        distcode.decodes(dls),
        cap != 0 ==> old(out)@.len() <= cap,
    ensures
        final(br).wf(),
        final(br).input() == old(br).input(),
        extends(old(out)@, final(out)@),
        ok == block_data(lls, dls, old(br).input(), old(br).bitpos(), old(out)@, cap as int) is Some,
        ok ==> block_data(lls, dls, old(br).input(), old(br).bitpos(), old(out)@, cap as int) == Some(
            (final(br).bitpos(), final(out)@),
        ),
        ok ==> !final(br).failed() && final(br).bitpos() > old(br).bitpos(),
        ok && cap != 0 ==> final(out)@.len() <= cap,
        final(out)@ == block_out(lls, dls, old(br).input(), old(br).bitpos(), old(out)@, cap as int),
{
    let ghost out0 = out@;
    let ghost d = br.input();
    let ghost bp0 = br.bitpos();
    assert(out@.subrange(0, out0.len() as int) =~= out0);
    proof {
        lemma_tables();
    }
    loop
        invariant
            br.wf(),
            br.input() == old(br).input(),
            d == old(br).input(),
            bp0 == old(br).bitpos(),
            !br.failed(),
            br.bitpos() >= old(br).bitpos(),
            lencode.decodes(lls),
            distcode.decodes(dls),
            extends(out0, out@),
            out0 == old(out)@,
            cap != 0 ==> out@.len() <= cap,
            block_data(lls, dls, d, br.bitpos(), out@, cap as int) == block_data(lls, dls, d, bp0, out0, cap as int),
            block_out(lls, dls, d, br.bitpos(), out@, cap as int) == block_out(lls, dls, d, bp0, out0, cap as int),
            forall|i: int| 0 <= i < 29 ==> 3 <= #[trigger] LENS@[i] <= 258 && 0 <= LEXT@[i] <= 5,
            forall|i: int| 0 <= i < 30 ==> 1 <= #[trigger] DISTS@[i] <= 24577 && 0 <= DEXT@[i] <= 13,
        decreases br.remaining(),
    {
        let ghost pos = br.bitpos();
        let ghost o = out@;
        proof {
            lemma_decode_canon(*lencode, lls, d, pos);
            lemma_code_walk_pos(len_counts(lls), d, pos, 1, 0, 0);
        }
        let sym = decode(br, lencode);
        if sym < 0 {
            return false;
        }
        let ghost p1 = br.bitpos();
        assert(canon_decode(lls, d, pos) == Some((sym as int, p1)));
        if sym < 256 {
            out.push(sym as u8);
            assert(out@.subrange(0, out0.len() as int) =~= out0);
        } else if sym > 256 {
            let s = (sym - 257) as usize;
            if s >= 29 {
                return false;
            }
            let len = LENS[s] as i32 + br.bits(LEXT[s] as i32);
            let ghost p1b = p1 + LEXT@[s as int];
            proof {
                if !br.failed() {
                    lemma_decode_canon(*distcode, dls, d, p1b);
                    lemma_code_walk_pos(len_counts(dls), d, p1b, 1, 0, 0);
                }
            }
            let dsym = decode(br, distcode);
            if dsym < 0 || dsym as usize >= MAX_DCODES {
                return false;
            }
            let ghost p2 = br.bitpos();
            assert(canon_decode(dls, d, p1b) == Some((dsym as int, p2)));
            let dist = DISTS[dsym as usize] as usize + br.bits(DEXT[dsym as usize] as i32) as usize;
            if br.error || dist > out.len() {
                return false;
            }
            let from = out.len() - dist;
            let mut i: usize = 0;
            let n = len as usize;
            assert(copy_back(out@, dist as int, n as int) == copy_back(o, dist as int, len as int));
            while i < n
                invariant
                    from + dist + i == out@.len(),
                    i <= n,
                    extends(out0, out@),
                    dist > 0,
                    copy_back(out@, dist as int, (n - i) as int) == copy_back(o, dist as int, len as int),
                decreases n - i,
            {
                let b = out[out.len() - dist];
                out.push(b);
                assert(out@.subrange(0, out0.len() as int) =~= out0);
                i += 1;
            }
            assert(out@ == copy_back(o, dist as int, len as int));
        } else {
            assert(block_data(lls, dls, d, pos, o, cap as int) == Some((p1, o)));
        }
        if cap != 0 && out.len() > cap {
            return false;
        }
        if sym == 256 {
            return !br.error;
        }
    }
}

/// The little-endian 16-bit value at `d[p..p + 2]`.
pub open spec fn le16(d: Seq<u8>, p: int) -> int {
    d[p] as int + 256 * (d[p + 1] as int)
}

/// A stored block whose header starts at byte `p` is well formed and fits under the cap.
pub open spec fn stored_ok(d: Seq<u8>, p: int, out_len: int, cap: int) -> bool {
    &&& p + 4 <= d.len()
    &&& le16(d, p) + le16(d, p + 2) == 0xFFFF
    &&& p + 4 + le16(d, p) <= d.len()
    &&& (cap == 0 || out_len + le16(d, p) <= cap)
}

/// A stored block whose header begins at the first byte boundary at or after bit `pos`:
/// the bit position after it and `out` with its bytes, or None when it is malformed, cut off,
/// or would grow the output past `cap` (0: no cap).
pub open spec fn stored_data(d: Seq<u8>, pos: int, out: Seq<u8>, cap: int) -> Option<(int, Seq<u8>)> {
    let p = (pos + 7) / 8;
    if stored_ok(d, p, out.len() as int, cap) {
        Some((8 * (p + 4 + le16(d, p)), out + d.subrange(p + 4, p + 4 + le16(d, p))))
    } else {
        None
    }
}

/// Copies a stored (uncompressed) block: LEN, NLEN (its complement), then LEN bytes.
fn stored_block(br: &mut BitReader, out: &mut Vec<u8>, cap: usize) -> (ok: bool)
    requires
        old(br).wf(),
        !old(br).failed(),
        cap != 0 ==> old(out)@.len() <= cap,
    ensures
        final(br).wf(),
        final(br).input() == old(br).input(),
        ({
            let d = old(br).input();
            let p = old(br).byte_pos();
            &&& ok == stored_ok(d, p, old(out)@.len() as int, cap as int)
            &&& ok ==> final(out)@ == old(out)@ + d.subrange(p + 4, p + 4 + le16(d, p))
            &&& ok ==> !final(br).failed() && final(br).bitpos() == 8 * (p + 4 + le16(d, p))
            &&& !ok ==> final(out)@ == old(out)@
        }),
        ok ==> final(br).bitpos() > old(br).bitpos(),
        ok && cap != 0 ==> final(out)@.len() <= cap,
        ok == stored_data(old(br).input(), old(br).bitpos(), old(out)@, cap as int) is Some,
        ok ==> stored_data(old(br).input(), old(br).bitpos(), old(out)@, cap as int) == Some(
            (final(br).bitpos(), final(out)@),
        ),
{
    proof {
        br.lemma_byte_pos();
    }
    br.bitbuf = 0;
    br.bitcnt = 0;
    let ghost d = br.data@;
    let ghost p = br.pos as int;
    if br.data.len() - br.pos < 4 {
        return false;
    }
    let len = (br.data[br.pos] as usize) | ((br.data[br.pos + 1] as usize) << 8usize);
    let nlen = (br.data[br.pos + 2] as usize) | ((br.data[br.pos + 3] as usize) << 8usize);
    proof {
        let a = br.data[br.pos as int];
        let b = br.data[br.pos + 1];
        let c = br.data[br.pos + 2];
        let e = br.data[br.pos + 3];
        assert((a as usize) | ((b as usize) << 8usize) == a as usize + 256 * (b as usize)) by (bit_vector);
        assert((c as usize) | ((e as usize) << 8usize) == c as usize + 256 * (e as usize)) by (bit_vector);
        let x = (a as usize) | ((b as usize) << 8usize);
        let y = (c as usize) | ((e as usize) << 8usize);
        assert(x < 0x10000 && y < 0x10000 ==> ((x ^ 0xFFFFusize) == y <==> x + y == 0xFFFF)) by (bit_vector);
    }
    if (len ^ 0xFFFF) != nlen {
        return false;
    }
    br.pos += 4;
    if br.data.len() - br.pos < len {
        return false;
    }
    if cap != 0 && (out.len() > cap || cap - out.len() < len) {
        return false;
    }
    let ghost o = out@;
    let mut k: usize = 0;
    while k < len
        invariant
            br.data@ == d,
            br.pos + len <= d.len(),
            br.pos + len <= br.data.len(),
            k <= len,
            out@ == o + d.subrange(br.pos as int, br.pos + k),
        decreases len - k,
    {
        out.push(br.data[br.pos + k]);
        assert(d.subrange(br.pos as int, br.pos + k + 1) =~= d.subrange(br.pos as int, br.pos + k).push(d[br.pos + k]));
        k += 1;
    }
    br.pos += len;
    proof {
        lemma_bits_bound(d, 8 * br.pos, 0);
    }
    true
}

/// The order in which a dynamic block lists the code lengths of the code-length alphabet.
pub const ORDER: [usize; 19] = [16, 17, 18, 0, 8, 7, 9, 6, 10, 5, 11, 4, 12, 3, 13, 2, 14, 1, 15];

/// All code lengths in `ls` lie in 0..=15.
pub open spec fn lengths_ok(ls: Seq<i16>) -> bool {
    forall|i: int| 0 <= i < ls.len() ==> 0 <= #[trigger] ls[i] <= 15
}

/// The code lengths of the fixed literal/length code (RFC 1951 section 3.2.6).
pub open spec fn fixed_lit_lengths() -> Seq<i16> {
    Seq::new(
        288,
        |i: int|
            if i < 144 {
                8i16
            } else if i < 256 {
                9i16
            } else if i < 280 {
                7i16
            } else {
                8i16
            },
    )
}

/// The code lengths of the fixed distance code: 5 bits for each of the 30 distance symbols.
pub open spec fn fixed_dist_lengths() -> Seq<i16> {
    Seq::new(30, |i: int| 5i16)
}

/// Counting over a stretch of equal lengths.
proof fn lemma_count_const(ls: Seq<i16>, a: int, b: int, v: i16, l: int)
    requires
        0 <= a <= b <= ls.len(),
        forall|i: int| a <= i < b ==> ls[i] == v,
    ensures
        count_len(ls, 0, b, l) == count_len(ls, 0, a, l) + if v as int == l { b - a } else { 0 },
    decreases b - a,
{
    if b > a {
        lemma_count_const(ls, a, b - 1, v, l);
    }
}

proof fn lemma_fixed_lit_counts(l: int)
    ensures
        count_len(fixed_lit_lengths(), 0, 288, l) == if l == 7 {
            24int
        } else if l == 8 {
            152int
        } else if l == 9 {
            112int
        } else {
            0int
        },
{
    let ls = fixed_lit_lengths();
    lemma_count_const(ls, 0, 144, 8, l);
    lemma_count_const(ls, 144, 256, 9, l);
    lemma_count_const(ls, 256, 280, 7, l);
    lemma_count_const(ls, 280, 288, 8, l);
}

proof fn lemma_fixed_dist_counts(l: int)
    ensures
        count_len(fixed_dist_lengths(), 0, 30, l) == if l == 5 { 30int } else { 0int },
{
    lemma_count_const(fixed_dist_lengths(), 0, 30, 5, l);
}

/// The fixed literal/length and distance codes of RFC 1951 section 3.2.6.
fn fixed_tables() -> (r: (Huffman, Huffman))
    ensures
        r.0.decodes(fixed_lit_lengths()),
        r.1.decodes(fixed_dist_lengths()),
{
    let mut lengths: Vec<i16> = vec![0i16; 288];
    let mut sym: usize = 0;
    while sym < 144
        invariant
            lengths@.len() == 288,
            lengths_ok(lengths@),
            sym <= 144,
            forall|i: int| 0 <= i < sym ==> lengths@[i] == fixed_lit_lengths()[i],
        decreases 144 - sym,
    {
        lengths.set(sym, 8);
        sym += 1;
    }
    while sym < 256
        invariant
            lengths@.len() == 288,
            lengths_ok(lengths@),
            144 <= sym <= 256,
            forall|i: int| 0 <= i < sym ==> lengths@[i] == fixed_lit_lengths()[i],
        decreases 256 - sym,
    {
        lengths.set(sym, 9);
        sym += 1;
    }
    while sym < 280
        invariant
            lengths@.len() == 288,
            lengths_ok(lengths@),
            256 <= sym <= 280,
            forall|i: int| 0 <= i < sym ==> lengths@[i] == fixed_lit_lengths()[i],
        decreases 280 - sym,
    {
        lengths.set(sym, 7);
        sym += 1;
    }
    while sym < FIX_LCODES
        invariant
            lengths@.len() == 288,
            lengths_ok(lengths@),
            280 <= sym <= 288,
            forall|i: int| 0 <= i < sym ==> lengths@[i] == fixed_lit_lengths()[i],
        decreases 288 - sym,
    {
        lengths.set(sym, 8);
        sym += 1;
    }
    assert(lengths@ =~= fixed_lit_lengths());
    let mut lencode = Huffman::new();
    let r1 = construct(&mut lencode, lengths.as_slice(), 0, FIX_LCODES);
    proof {
        assert(lengths@.subrange(0, 288) =~= lengths@);
        assert forall|l: int| 0 <= l <= 15 implies lencode.counts()[l] == if l == 7 {
            24int
        } else if l == 8 {
            152int
        } else if l == 9 {
            112int
        } else {
            0int
        } by {
            lemma_fixed_lit_counts(l);
        }
        reveal_with_fuel(kraft_from, 16);
        assert(r1 >= 0);
    }
    let mut k: usize = 0;
    while k < MAX_DCODES
        invariant
            lengths@.len() == 288,
            lengths_ok(lengths@),
            k <= MAX_DCODES,
            forall|i: int| 0 <= i < k ==> lengths@[i] == 5,
        decreases MAX_DCODES - k,
    {
        lengths.set(k, 5);
        k += 1;
    }
    assert(lengths@.subrange(0, 30) =~= fixed_dist_lengths());
    let mut distcode = Huffman::new();
    let r2 = construct(&mut distcode, lengths.as_slice(), 0, MAX_DCODES);
    proof {
        assert forall|l: int| 0 <= l <= 15 implies distcode.counts()[l] == if l == 5 { 30int } else { 0int } by {
            lemma_fixed_dist_counts(l);
            lemma_count_len_shift(lengths@, 0, 30, 30, l);
        }
        reveal_with_fuel(kraft_from, 16);
        assert(r2 >= 0);
    }
    (lencode, distcode)
}

/// The code lengths of the code-length alphabet after the first `i` 3-bit values from bit
/// `pos` on: the `j`-th value read is the length of symbol `ORDER[j]`.
pub open spec fn cl_read(d: Seq<u8>, pos: int, i: int) -> Seq<i16>
    decreases i,
{
    if i <= 0 {
        Seq::new(19, |s: int| 0i16)
    } else {
        cl_read(d, pos, i - 1).update(ORDER@[i - 1] as int, bits_val(d, pos + 3 * (i - 1), 3) as i16)
    }
}

/// The lengths `ls` with the symbols `ORDER[from..19]` (those not read) set to 0.
pub open spec fn cl_clear(ls: Seq<i16>, from: int) -> Seq<i16>
    decreases 19 - from,
{
    if from >= 19 || from < 0 {
        ls
    } else {
        cl_clear(ls.update(ORDER@[from] as int, 0), from + 1)
    }
}

/// The code lengths of the code-length code: `ncode` 3-bit values from bit `pos` on.
pub open spec fn cl_lengths(d: Seq<u8>, pos: int, ncode: int) -> Seq<i16> {
    cl_clear(cl_read(d, pos, ncode), ncode)
}

/// Reads code lengths with the code-length code `cl` from bit `pos` on, after the lengths `ls`
/// read so far, until there are `total`: a symbol below 16 is a length, 16 repeats the last
/// length 3 to 6 times, 17 gives 3 to 10 zeros and 18 gives 11 to 138 zeros. The bit position
/// after them and all the lengths, or None when the data is malformed or runs out.
pub open spec fn read_lengths(cl: Seq<i16>, d: Seq<u8>, pos: int, ls: Seq<i16>, total: int) -> Option<(int, Seq<i16>)>
    decreases 8 * d.len() - pos,
{
    if ls.len() >= total {
        Some((pos, ls))
    } else {
        match canon_decode(cl, d, pos) {
            None => None,
            Some((sym, p1)) => {
                proof {
                    lemma_code_walk_pos(len_counts(cl), d, pos, 1, 0, 0);
                }
                if sym < 16 {
                    read_lengths(cl, d, p1, ls.push(sym as i16), total)
                } else if sym == 16 && ls.len() == 0 {
                    None
                } else {
                    let nbits: int = if sym == 16 {
                        2
                    } else if sym == 17 {
                        3
                    } else {
                        7
                    };
                    let base: int = if sym == 18 {
                        11
                    } else if sym > 18 {
                        11
                    } else {
                        3
                    };
                    let rep: i16 = if sym == 16 {
                        ls.last()
                    } else {
                        0
                    };
                    match read_bits(d, p1, nbits) {
                        None => None,
                        Some(e) => if ls.len() + base + e > total {
                            None
                        } else {
                            read_lengths(
                                cl,
                                d,
                                p1 + nbits,
                                ls + Seq::new((base + e) as nat, |i: int| rep),
                                total,
                            )
                        },
                    }
                }
            },
        }
    }
}

/// Code lengths that the decoder accepts: not over-subscribed, and incomplete only when a single
/// symbol has a code.
pub open spec fn code_usable(ls: Seq<i16>) -> bool {
    let r = construct_result(len_counts(ls), ls.len() as int);
    r >= 0 && (r > 0 ==> ls.len() - len_counts(ls)[0] == 1)
}

/// The rest of a dynamic block once the code-length code `cl` is known: the `nlen` literal/length
/// and `ndist` distance code lengths from bit `pos` on, then the data coded with them.
pub open spec fn dynamic_rest(cl: Seq<i16>, d: Seq<u8>, pos: int, nlen: int, ndist: int, out: Seq<u8>, cap: int) -> Option<(int, Seq<u8>)> {
    match read_lengths(cl, d, pos, Seq::empty(), nlen + ndist) {
        None => None,
        Some((p, ls)) => {
            let lit = ls.subrange(0, nlen);
            let dist = ls.subrange(nlen, nlen + ndist);
            if ls[256] == 0 || !code_usable(lit) || !code_usable(dist) {
                None
            } else {
                block_data(lit, dist, d, p, out, cap)
            }
        },
    }
}

/// A block with dynamic Huffman codes whose header begins at bit `pos`: the bit position after it
/// and `out` with its data, or None when it is malformed, cut off, or grows the output past `cap`.
pub open spec fn dynamic_data(d: Seq<u8>, pos: int, out: Seq<u8>, cap: int) -> Option<(int, Seq<u8>)> {
    match (read_bits(d, pos, 5), read_bits(d, pos + 5, 5), read_bits(d, pos + 10, 4)) {
        (Some(a), Some(b), Some(c)) => {
            let nlen = a + 257;
            let ndist = b + 1;
            let ncode = c + 4;
            if nlen > 286 || ndist > 30 || pos + 14 + 3 * ncode > 8 * d.len() {
                None
            } else {
                let cl = cl_lengths(d, pos + 14, ncode);
                if construct_result(len_counts(cl), 19) != 0 {
                    None
                } else {
                    dynamic_rest(cl, d, pos + 14 + 3 * ncode, nlen, ndist, out, cap)
                }
            }
        },
        _ => None,
    }
}

/// The output that the rest of a dynamic block leaves (see `dynamic_rest`): `out` itself when
/// the code lengths are rejected, else what decoding the data leaves.
pub open spec fn dynamic_rest_out(cl: Seq<i16>, d: Seq<u8>, pos: int, nlen: int, ndist: int, out: Seq<u8>, cap: int) -> Seq<u8> {
    match read_lengths(cl, d, pos, Seq::empty(), nlen + ndist) {
        None => out,
        Some((p, ls)) => {
            let lit = ls.subrange(0, nlen);
            let dist = ls.subrange(nlen, nlen + ndist);
            if ls[256] == 0 || !code_usable(lit) || !code_usable(dist) {
                out
            } else {
                block_out(lit, dist, d, p, out, cap)
            }
        },
    }
}

/// The output that a dynamic block whose header begins at bit `pos` leaves, `out` before:
/// `out` itself when its header or code tables are rejected, else what decoding its data leaves.
pub open spec fn dynamic_out(d: Seq<u8>, pos: int, out: Seq<u8>, cap: int) -> Seq<u8> {
    match (read_bits(d, pos, 5), read_bits(d, pos + 5, 5), read_bits(d, pos + 10, 4)) {
        (Some(a), Some(b), Some(c)) => {
            let nlen = a + 257;
            let ndist = b + 1;
            let ncode = c + 4;
            if nlen > 286 || ndist > 30 || pos + 14 + 3 * ncode > 8 * d.len() {
                out
            } else {
                let cl = cl_lengths(d, pos + 14, ncode);
                if construct_result(len_counts(cl), 19) != 0 {
                    out
                } else {
                    dynamic_rest_out(cl, d, pos + 14 + 3 * ncode, nlen, ndist, out, cap)
                }
            }
        },
        _ => out,
    }
}

/// The table counts are the counts of the lengths that were read.
proof fn lemma_counts_eq(c: Seq<i16>, ls: Seq<i16>, off: int, n: int)
    requires
        c.len() == 16,
        0 <= off,
        0 <= n <= FIX_LCODES,
        off + n <= ls.len(),
        forall|l: int| 0 <= l <= 15 ==> c[l] == count_len(ls, off, n, l),
    ensures
        c =~= len_counts(ls.subrange(off, off + n)),
{
    assert forall|l: int| 0 <= l < 16 implies c[l] == len_counts(ls.subrange(off, off + n))[l] by {
        lemma_count_len_shift(ls, off, n, n, l);
        lemma_count_len_le(ls, off, n, l);
        lemma_count_len_nonneg(ls, off, n, l);
    }
}

/// Reads the code-length code, the literal/length and distance code lengths, then the block's data.
#[verifier::rlimit(60)]
#[verifier::spinoff_prover]
fn dynamic_block(br: &mut BitReader, out: &mut Vec<u8>, cap: usize) -> (ok: bool)
    requires
        old(br).wf(),
        !old(br).failed(),
        cap != 0 ==> old(out)@.len() <= cap,
    ensures
        final(br).wf(),
        final(br).input() == old(br).input(),
        extends(old(out)@, final(out)@),
        ok ==> !final(br).failed() && final(br).bitpos() > old(br).bitpos(),
        ok && cap != 0 ==> final(out)@.len() <= cap,
        ok == dynamic_data(old(br).input(), old(br).bitpos(), old(out)@, cap as int) is Some,
        ok ==> dynamic_data(old(br).input(), old(br).bitpos(), old(out)@, cap as int) == Some(
            (final(br).bitpos(), final(out)@),
        ),
        final(out)@ == dynamic_out(old(br).input(), old(br).bitpos(), old(out)@, cap as int),
{
    proof {
        lemma2_to64();
    }
    let ghost d = br.input();
    let ghost pos = br.bitpos();
    assert(out@.subrange(0, out@.len() as int) =~= out@);
    let a = br.bits(5);
    let ghost fa = br.failed();
    let b = br.bits(5);
    let ghost fb = br.failed();
    let c = br.bits(4);
    let nlen = a as usize + 257;
    let ndist = b as usize + 1;
    let ncode = c as usize + 4;
    if br.error || nlen > MAX_LCODES || ndist > MAX_DCODES {
        return false;
    }
    let ghost bp0 = br.bitpos();
    assert(!fa && !fb);
    assert(read_bits(d, pos, 5) == Some(a as int));
    assert(read_bits(d, pos + 5, 5) == Some(b as int));
    assert(read_bits(d, pos + 10, 4) == Some(c as int));
    assert(bp0 == pos + 14);
    let mut lengths: Vec<i16> = vec![0i16; 316];
    assert(lengths@.subrange(0, 19) =~= cl_read(d, bp0, 0));
    let mut i: usize = 0;
    while i < ncode
        invariant
            br.wf(),
            br.input() == old(br).input(),
            d == old(br).input(),
            br.failed() || br.bitpos() >= bp0,
            bp0 > old(br).bitpos(),
            bp0 >= 0,
            ncode <= 19,
            i <= ncode,
            lengths@.len() == 316,
            lengths_ok(lengths@),
            out@ == old(out)@,
            extends(old(out)@, out@),
            pow2(3) == 8,
            br.failed() ==> bp0 + 3 * i > 8 * d.len(),
            !br.failed() ==> bp0 + 3 * i <= 8 * d.len() && br.bitpos() == bp0 + 3 * i
                && lengths@.subrange(0, 19) == cl_read(d, bp0, i as int),
        decreases ncode - i,
    {
        let ghost was_failed = br.failed();
        let v = br.bits(3) as i16;
        assert(ORDER@[i as int] < 19);
        let ghost before = lengths@;
        lengths.set(ORDER[i], v);
        proof {
            if !br.failed() {
                assert(lengths@.subrange(0, 19) =~= before.subrange(0, 19).update(ORDER@[i as int] as int, v));
            }
        }
        i += 1;
    }
    let ghost read = lengths@.subrange(0, 19);
    let mut i: usize = ncode;
    while i < 19
        invariant
            ncode <= i <= 19,
            lengths@.len() == 316,
            lengths_ok(lengths@),
            out@ == old(out)@,
            extends(old(out)@, out@),
            cl_clear(lengths@.subrange(0, 19), i as int) == cl_clear(read, ncode as int),
        decreases 19 - i,
    {
        assert(ORDER@[i as int] < 19);
        let ghost before = lengths@;
        lengths.set(ORDER[i], 0);
        assert(lengths@.subrange(0, 19) =~= before.subrange(0, 19).update(ORDER@[i as int] as int, 0));
        i += 1;
    }
    if br.error {
        return false;
    }
    let ghost cl = lengths@.subrange(0, 19);
    assert(cl == cl_lengths(d, bp0, ncode as int));
    let mut lencode = Huffman::new();
    let cerr = construct(&mut lencode, lengths.as_slice(), 0, 19);
    proof {
        lemma_counts_eq(lencode.counts(), lengths@, 0, 19);
    }
    if cerr != 0 {
        return false;
    }
    let ghost total = (nlen + ndist) as int;
    let ghost bp1 = br.bitpos();
    assert(dynamic_data(d, pos, old(out)@, cap as int) == dynamic_rest(
        cl,
        d,
        bp1,
        nlen as int,
        ndist as int,
        old(out)@,
        cap as int,
    ));
    assert(dynamic_out(d, pos, old(out)@, cap as int) == dynamic_rest_out(
        cl,
        d,
        bp1,
        nlen as int,
        ndist as int,
        old(out)@,
        cap as int,
    ));
    assert(lengths@.subrange(0, 0) =~= Seq::<i16>::empty());
    let mut index: usize = 0;
    while index < nlen + ndist
        invariant
            br.wf(),
            br.input() == old(br).input(),
            d == old(br).input(),
            !br.failed(),
            br.bitpos() >= bp0,
            bp0 > old(br).bitpos(),
            lencode.decodes(cl),
            nlen <= MAX_LCODES,
            ndist <= MAX_DCODES,
            total == nlen + ndist,
            index <= nlen + ndist,
            lengths@.len() == 316,
            lengths_ok(lengths@),
            out@ == old(out)@,
            extends(old(out)@, out@),
            pow2(2) == 4 && pow2(3) == 8 && pow2(7) == 128,
            read_lengths(cl, d, br.bitpos(), lengths@.subrange(0, index as int), total) == read_lengths(
                cl,
                d,
                bp1,
                Seq::empty(),
                total,
            ),
            pos == old(br).bitpos(),
            dynamic_data(d, pos, old(out)@, cap as int) == dynamic_rest(
                cl,
                d,
                bp1,
                nlen as int,
                ndist as int,
                old(out)@,
                cap as int,
            ),
            dynamic_out(d, pos, old(out)@, cap as int) == dynamic_rest_out(
                cl,
                d,
                bp1,
                nlen as int,
                ndist as int,
                old(out)@,
                cap as int,
            ),
        decreases nlen + ndist - index,
    {
        let ghost p0 = br.bitpos();
        let ghost ls0 = lengths@.subrange(0, index as int);
        proof {
            lemma_decode_canon(lencode, cl, d, p0);
            lemma_code_walk_pos(len_counts(cl), d, p0, 1, 0, 0);
        }
        let mut sym = decode(br, &lencode);
        if sym < 0 {
            return false;
        }
        assert(canon_decode(cl, d, p0) == Some((sym as int, br.bitpos())));
        let ghost p1 = br.bitpos();
        if sym < 16 {
            let ghost before = lengths@;
            lengths.set(index, sym as i16);
            assert(lengths@.subrange(0, index + 1) =~= ls0.push(sym as i16));
            index += 1;
        } else {
            let ghost code = sym;
            let mut repeat: i16 = 0;
            if sym == 16 {
                if index == 0 {
                    return false;
                }
                repeat = lengths[index - 1];
                assert(repeat == ls0.last());
                sym = 3 + br.bits(2);
            } else if sym == 17 {
                sym = 3 + br.bits(3);
            } else {
                sym = 11 + br.bits(7);
            }
            if br.error || index + sym as usize > nlen + ndist {
                return false;
            }
            let mut s = sym;
            let ghost idx0 = index;
            assert(lengths@.subrange(0, index as int) =~= ls0 + Seq::new(0nat, |i: int| repeat));
            while s > 0
                invariant
                    0 <= s <= sym,
                    index + s == idx0 + sym,
                    index + s <= nlen + ndist,
                    nlen + ndist <= 316,
                    lengths@.len() == 316,
                    lengths_ok(lengths@),
                    0 <= repeat <= 15,
                    idx0 <= index,
                    ls0.len() == idx0,
                    lengths@.subrange(0, index as int) == ls0 + Seq::new((index - idx0) as nat, |i: int| repeat),
                decreases s,
            {
                let ghost before = lengths@;
                let ghost k = (index - idx0) as nat;
                lengths.set(index, repeat);
                assert(lengths@.subrange(0, index as int) =~= before.subrange(0, index as int));
                assert(lengths@.subrange(0, index + 1) =~= before.subrange(0, index as int).push(repeat));
                assert(ls0 + Seq::new(k + 1, |i: int| repeat) =~= (ls0 + Seq::new(k, |i: int| repeat)).push(repeat));
                index += 1;
                s -= 1;
            }
            assert(lengths@.subrange(0, index as int) == ls0 + Seq::new(sym as nat, |i: int| repeat));
        }
    }
    let ghost ls = lengths@.subrange(0, total);
    assert(read_lengths(cl, d, br.bitpos(), ls, total) == Some((br.bitpos(), ls)));
    if lengths[256] == 0 {
        return false;
    }
    let err = construct(&mut lencode, lengths.as_slice(), 0, nlen);
    proof {
        lemma_counts_eq(lencode.counts(), lengths@, 0, nlen as int);
        assert(lengths@.subrange(0, nlen as int) =~= ls.subrange(0, nlen as int));
    }
    if err < 0 || (err > 0 && nlen as i32 - lencode.count[0] as i32 != 1) {
        return false;
    }
    let mut distcode = Huffman::new();
    let err = construct(&mut distcode, lengths.as_slice(), nlen, ndist);
    proof {
        lemma_counts_eq(distcode.counts(), lengths@, nlen as int, ndist as int);
        assert(lengths@.subrange(nlen as int, nlen + ndist) =~= ls.subrange(nlen as int, nlen + ndist));
    }
    if err < 0 || (err > 0 && ndist as i32 - distcode.count[0] as i32 != 1) {
        return false;
    }
    codes(
        br,
        out,
        &lencode,
        &distcode,
        cap,
        Ghost(lengths@.subrange(0, nlen as int)),
        Ghost(lengths@.subrange(nlen as int, (nlen + ndist) as int)),
    )
}

/// A compressed block's data ends after where it starts and within the input.
proof fn lemma_block_data_pos(lls: Seq<i16>, dls: Seq<i16>, d: Seq<u8>, pos: int, out: Seq<u8>, cap: int)
    ensures
        block_data(lls, dls, d, pos, out, cap) matches Some((p, o)) ==> pos < p <= 8 * d.len(),
    decreases 8 * d.len() - pos,
{
    lemma_tables();
    lemma_code_walk_pos(len_counts(lls), d, pos, 1, 0, 0);
    match canon_decode(lls, d, pos) {
        None => {},
        Some((sym, p1)) => {
            if sym < 256 {
                lemma_block_data_pos(lls, dls, d, p1, out.push(sym as u8), cap);
            } else if sym > 256 && sym - 257 < 29 {
                let s = sym - 257;
                match read_bits(d, p1, LEXT@[s] as int) {
                    None => {},
                    Some(e) => {
                        let len = LENS@[s] + e;
                        lemma_code_walk_pos(len_counts(dls), d, p1 + LEXT@[s], 1, 0, 0);
                        match canon_decode(dls, d, p1 + LEXT@[s]) {
                            None => {},
                            Some((ds, p2)) => {
                                if 0 <= ds < 30 {
                                    match read_bits(d, p2, DEXT@[ds] as int) {
                                        None => {},
                                        Some(e2) => {
                                            let dist = DISTS@[ds] + e2;
                                            lemma_block_data_pos(
                                                lls,
                                                dls,
                                                d,
                                                p2 + DEXT@[ds],
                                                copy_back(out, dist, len),
                                                cap,
                                            );
                                        },
                                    }
                                }
                            },
                        }
                    },
                }
            }
        },
    }
}

/// Reading code lengths never moves back.
proof fn lemma_read_lengths_pos(cl: Seq<i16>, d: Seq<u8>, pos: int, ls: Seq<i16>, total: int)
    ensures
        read_lengths(cl, d, pos, ls, total) matches Some((p, l)) ==> pos <= p,
    decreases 8 * d.len() - pos,
{
    if ls.len() < total {
        lemma_code_walk_pos(len_counts(cl), d, pos, 1, 0, 0);
        match canon_decode(cl, d, pos) {
            None => {},
            Some((sym, p1)) => {
                if sym < 16 {
                    lemma_read_lengths_pos(cl, d, p1, ls.push(sym as i16), total);
                } else if !(sym == 16 && ls.len() == 0) {
                    let nbits: int = if sym == 16 {
                        2
                    } else if sym == 17 {
                        3
                    } else {
                        7
                    };
                    let base: int = if sym == 18 {
                        11
                    } else if sym > 18 {
                        11
                    } else {
                        3
                    };
                    let rep: i16 = if sym == 16 {
                        ls.last()
                    } else {
                        0
                    };
                    match read_bits(d, p1, nbits) {
                        None => {},
                        Some(e) => {
                            if ls.len() + base + e <= total {
                                lemma_read_lengths_pos(
                                    cl,
                                    d,
                                    p1 + nbits,
                                    ls + Seq::new((base + e) as nat, |i: int| rep),
                                    total,
                                );
                            }
                        },
                    }
                }
            },
        }
    }
}

/// The block of type `typ` whose data begins at bit `pos` (after its 3 header bits): stored,
/// fixed codes, or dynamic codes.
pub open spec fn block_of_type(d: Seq<u8>, pos: int, typ: int, out: Seq<u8>, cap: int) -> Option<(int, Seq<u8>)> {
    if typ == 0 {
        stored_data(d, pos, out, cap)
    } else if typ == 1 {
        block_data(fixed_lit_lengths(), fixed_dist_lengths(), d, pos, out, cap)
    } else if typ == 2 {
        dynamic_data(d, pos, out, cap)
    } else {
        None
    }
}

/// A block ends after where it starts and within the input.
pub proof fn lemma_block_pos(d: Seq<u8>, pos: int, typ: int, out: Seq<u8>, cap: int)
    requires
        pos >= 0,
    ensures
        block_of_type(d, pos, typ, out, cap) matches Some((p, o)) ==> pos < p <= 8 * d.len(),
{
    if typ == 0 {
        let q = (pos + 7) / 8;
        assert(8 * q >= pos);
        if stored_ok(d, q, out.len() as int, cap) {
            assert(block_of_type(d, pos, typ, out, cap) == Some(
                (8 * (q + 4 + le16(d, q)), out + d.subrange(q + 4, q + 4 + le16(d, q))),
            ));
            assert(le16(d, q) >= 0);
        }
    } else if typ == 1 {
        lemma_block_data_pos(fixed_lit_lengths(), fixed_dist_lengths(), d, pos, out, cap);
    } else if typ == 2 {
        match (read_bits(d, pos, 5), read_bits(d, pos + 5, 5), read_bits(d, pos + 10, 4)) {
            (Some(a), Some(b), Some(c)) => {
                let nlen = a + 257;
                let ndist = b + 1;
                let ncode = c + 4;
                let cl = cl_lengths(d, pos + 14, ncode);
                let q = pos + 14 + 3 * ncode;
                lemma_read_lengths_pos(cl, d, q, Seq::empty(), nlen + ndist);
                match read_lengths(cl, d, q, Seq::empty(), nlen + ndist) {
                    Some((p, ls)) => {
                        lemma_block_data_pos(ls.subrange(0, nlen), ls.subrange(nlen, nlen + ndist), d, p, out, cap);
                        assert(c >= 0) by {
                            lemma_bits_bound(d, pos + 10, 4);
                        }
                        assert(p >= q);
                    },
                    None => {},
                }
            },
            _ => {},
        }
    }
}

/// The output of a raw DEFLATE stream whose next block header is at bit `pos`, after `out`:
/// blocks one after another until the one marked last, or None when a block is malformed,
/// the stream is cut off, or the output grows past `cap` (0: no cap).
pub open spec fn inflate_from(d: Seq<u8>, pos: int, out: Seq<u8>, cap: int) -> Option<Seq<u8>>
    decreases 8 * d.len() - pos,
{
    if pos < 0 {
        None
    } else {
        match (read_bits(d, pos, 1), read_bits(d, pos + 1, 2)) {
            (Some(last), Some(typ)) => match block_of_type(d, pos + 3, typ, out, cap) {
                None => None,
                Some((p, o)) => {
                    proof {
                        lemma_block_pos(d, pos + 3, typ, out, cap);
                    }
                    if last != 0 {
                        Some(o)
                    } else {
                        inflate_from(d, p, o, cap)
                    }
                },
            },
            _ => None,
        }
    }
}

/// What decompressing the raw DEFLATE stream `d` (RFC 1951) gives, with output cap `cap`.
pub open spec fn inflate_spec(d: Seq<u8>, cap: int) -> Option<Seq<u8>> {
    inflate_from(d, 0, Seq::empty(), cap)
}

/// A raw DEFLATE stream made of one final stored block holding `x` (fewer than 65536 bytes).
pub open spec fn stored_stream(x: Seq<u8>) -> Seq<u8> {
    let n = x.len() as int;
    seq![1u8, (n % 256) as u8, (n / 256) as u8, (255 - n % 256) as u8, (255 - n / 256) as u8] + x
}

/// A stored block gives back the bytes it holds, when they fit under the cap.
pub proof fn lemma_stored_stream(x: Seq<u8>, cap: int)
    requires
        x.len() < 65536,
        cap == 0 || x.len() <= cap,
    ensures
        inflate_spec(stored_stream(x), cap) == Some(x),
{
    let d = stored_stream(x);
    let n = x.len() as int;
    assert(d[0] == 1u8);
    let b0 = d[0];
    assert((b0 >> 0u8) & 1u8 == 1u8) by (bit_vector)
        requires b0 == 1u8;
    assert((b0 >> 1u8) & 1u8 == 0u8) by (bit_vector)
        requires b0 == 1u8;
    assert((b0 >> 2u8) & 1u8 == 0u8) by (bit_vector)
        requires b0 == 1u8;
    reveal_with_fuel(bits_val, 3);
    assert(bit_at(d, 0) == 1);
    assert(bit_at(d, 1) == 0);
    assert(bit_at(d, 2) == 0);
    assert(read_bits(d, 0, 1) == Some(1int));
    assert(read_bits(d, 1, 2) == Some(0int));
    assert(le16(d, 1) == n);
    assert(le16(d, 3) == 0xFFFF - n);
    assert(stored_ok(d, 1, 0, cap));
    assert(d.subrange(5, 5 + n) =~= x);
    assert(stored_data(d, 3, Seq::empty(), cap) == Some((8 * (5 + n), Seq::<u8>::empty() + x)));
    assert(Seq::<u8>::empty() + x =~= x);
}

/// Decompresses a raw DEFLATE stream. `expected_size`, when non-zero, pre-reserves
/// and acts as a hard output cap. Returns None on malformed input.
pub fn inflate_raw(src: &[u8], expected_size: usize) -> (r: Option<Vec<u8>>)
    ensures
        match r {
            Some(out) => inflate_spec(src@, expected_size as int) == Some(out@),
            None => inflate_spec(src@, expected_size as int) is None,
        },
        r matches Some(out) ==> (expected_size != 0 ==> out@.len() <= expected_size),
{
    let mut out: Vec<u8> = Vec::new();
    if expected_size != 0 {
        let want = if expected_size < 0x400_0000 {
            expected_size
        } else {
            0x400_0000
        };
        out.reserve(want);
    }
    let cap = expected_size;
    let mut br = BitReader::new(src);
    loop
        invariant
            br.wf(),
            br.input() == src@,
            !br.failed(),
            cap == expected_size,
            cap != 0 ==> out@.len() <= cap,
            br.bitpos() >= 0,
            inflate_from(src@, br.bitpos(), out@, cap as int) == inflate_spec(src@, expected_size as int),
        decreases br.remaining(),
    {
        let ghost pos = br.bitpos();
        let last = br.bits(1);
        let ghost f1 = br.failed();
        let typ = br.bits(2);
        if br.error {
            return None;
        }
        assert(!f1);
        assert(read_bits(src@, pos, 1) == Some(last as int));
        assert(read_bits(src@, pos + 1, 2) == Some(typ as int));
        proof {
            lemma_block_pos(src@, pos + 3, typ as int, out@, cap as int);
        }
        let ok = if typ == 0 {
            stored_block(&mut br, &mut out, cap)
        } else if typ == 1 {
            let (lencode, distcode) = fixed_tables();
            codes(&mut br, &mut out, &lencode, &distcode, cap, Ghost(fixed_lit_lengths()), Ghost(fixed_dist_lengths()))
        } else if typ == 2 {
            dynamic_block(&mut br, &mut out, cap)
        } else {
            return None;
        };
        if !ok {
            return None;
        }
        if last != 0 {
            return Some(out);
        }
    }
}

} // verus!
