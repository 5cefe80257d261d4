//! The rolling checksum of a window of bytes, and the strong digest of a
//! block with its truncated comparison.

use vstd::arithmetic::div_mod::{
    lemma_add_mod_noop, lemma_mul_mod_noop_general, lemma_small_mod, lemma_sub_mod_noop,
};
use vstd::prelude::*;
use vstd::std_specs::cmp::PartialEqSpecImpl;
use vstd::std_specs::convert::FromSpecImpl;
use md4::{Digest, Md4};

verus! {

/// The modulus of one checksum component.
pub open spec fn rsum_modulus() -> int {
    0x1_0000
}

/// Sum of the first `k` bytes of `s`.
pub open spec fn byte_sum(s: Seq<u8>, k: int) -> int
    decreases k,
{
    if k <= 0 {
        0
    } else {
        byte_sum(s, k - 1) + s[k - 1] as int
    }
}

/// Sum of the first `k` bytes of `s`, each weighted by its distance from the
/// end of `s`: the first byte counts `s.len()` times, the last one once.
pub open spec fn weighted_sum(s: Seq<u8>, k: int) -> int
    decreases k,
{
    if k <= 0 {
        0
    } else {
        weighted_sum(s, k - 1) + (s.len() - (k - 1)) * (s[k - 1] as int)
    }
}

/// Rolling checksum of a window: the byte sum and the weighted byte sum,
/// each reduced modulo 2^16.
#[derive(Copy, Clone, Debug, PartialEq, Eq, Structural)]
pub struct Rsum(pub u16, pub u16);

impl Rsum {
    /// The checksum of the window `s`.
    pub open spec fn of(s: Seq<u8>) -> Rsum {
        Rsum(
            (byte_sum(s, s.len() as int) % rsum_modulus()) as u16,
            (weighted_sum(s, s.len() as int) % rsum_modulus()) as u16,
        )
    }

    /// The checksum after the window moves on by one byte: `old_byte` leaves
    /// at the front, `new_byte` enters at the back, the length stays
    /// `blocksize`.
    pub open spec fn shifted(self, old_byte: u8, new_byte: u8, blocksize: usize) -> Rsum {
        let a = (self.0 - old_byte + new_byte) % rsum_modulus();
        let b = (self.1 - old_byte * blocksize + a) % rsum_modulus();
        Rsum(a as u16, b as u16)
    }

    /// The number under which the block index files this checksum: the
    /// first component in the upper sixteen bits, the second in the lower.
    pub open spec fn key_spec(self) -> u32 {
        (self.0 * 0x1_0000 + self.1) as u32
    }

    /// Computes the number under which the block index files this checksum.
    pub fn key(&self) -> (k: u32)
        ensures
            k == self.key_spec(),
    {
        (self.0 as u32) * 0x1_0000 + (self.1 as u32)
    }

    /// Computes the checksum of a block from scratch.
    pub fn calculate(data: &[u8]) -> (r: Rsum)
        ensures
            r == Rsum::of(data@),
    {
        let n = data.len();
        let mut a: u16 = 0;
        let mut b: u16 = 0;
        let mut weight: u16 = (n % 0x1_0000) as u16;
        let mut i: usize = 0;
        while i < n
            invariant
                i <= n,
                n == data@.len(),
                a as int == byte_sum(data@, i as int) % rsum_modulus(),
                b as int == weighted_sum(data@, i as int) % rsum_modulus(),
                weight as int == (n - i) % rsum_modulus(),
            decreases n - i,
        {
            let x = data[i] as u16;
            proof {
                let m = rsum_modulus();
                let s = data@;
                lemma_small_mod(x as nat, m as nat);
                lemma_add_mod_noop(byte_sum(s, i as int), x as int, m);
                lemma_mul_mod_noop_general(n - i, x as int, m);
                lemma_add_mod_noop(weighted_sum(s, i as int), (n - i) * (x as int), m);
                lemma_small_mod(1, m as nat);
                lemma_sub_mod_noop(n - i, 1, m);
            }
            a = a.wrapping_add(x);
            b = b.wrapping_add(weight.wrapping_mul(x));
            weight = weight.wrapping_sub(1);
            i += 1;
        }
        Rsum(a, b)
    }

    /// Moves the checksum on by one byte in constant time.
    pub fn update(&mut self, old_byte: u8, new_byte: u8, blocksize: usize)
        ensures
            *final(self) == old(self).shifted(old_byte, new_byte, blocksize),
    {
        let size: u16 = (blocksize % 0x1_0000) as u16;
        let leaving: u16 = old_byte as u16;
        let entering: u16 = new_byte as u16;
        let a = self.0.wrapping_sub(leaving).wrapping_add(entering);
        let b = self.1.wrapping_sub(leaving.wrapping_mul(size)).wrapping_add(a);
        proof {
            lemma_shifted_by_wrapping(*self, old_byte, new_byte, blocksize);
        }
        self.0 = a;
        self.1 = b;
    }
}

impl Default for Rsum {
    fn default() -> (r: Self)
        ensures
            r == Rsum(0, 0),
    {
        Rsum(0, 0)
    }
}

/// Different checksums are filed under different numbers.
pub proof fn lemma_rsum_key_injective(x: Rsum, y: Rsum)
    ensures
        x.key_spec() == y.key_spec() <==> x == y,
{
}

/// Wrapping arithmetic on 16 bits is arithmetic modulo 2^16.
proof fn lemma_wrapping_is_modular(x: u16, y: u16)
    ensures
        x.wrapping_add(y) as int == (x + y) % rsum_modulus(),
        x.wrapping_sub(y) as int == (x - y) % rsum_modulus(),
        x.wrapping_mul(y) as int == (x * y) % rsum_modulus(),
{
    let m = rsum_modulus();
    if x + y > u16::MAX {
        vstd::arithmetic::div_mod::lemma_mod_sub_multiples_vanish(x + y, m);
        lemma_small_mod((x + y - m) as nat, m as nat);
    } else {
        lemma_small_mod((x + y) as nat, m as nat);
    }
    if x - y < 0 {
        vstd::arithmetic::div_mod::lemma_mod_add_multiples_vanish(x - y, m);
        lemma_small_mod((x - y + m) as nat, m as nat);
    } else {
        lemma_small_mod((x - y) as nat, m as nat);
    }
    assert(x as nat * y as nat == x * y) by (nonlinear_arith);
    assert(0 <= x * y) by (nonlinear_arith);
}

/// The wrapping operations of `update` compute `shifted`.
proof fn lemma_shifted_by_wrapping(r: Rsum, old_byte: u8, new_byte: u8, blocksize: usize)
    ensures
        ({
            let size = (blocksize % 0x1_0000) as u16;
            let a = r.0.wrapping_sub(old_byte as u16).wrapping_add(new_byte as u16);
            let b = r.1.wrapping_sub((old_byte as u16).wrapping_mul(size)).wrapping_add(a);
            Rsum(a, b) == r.shifted(old_byte, new_byte, blocksize)
        }),
{
    let m = rsum_modulus();
    let size = (blocksize % 0x1_0000) as u16;
    let leaving = old_byte as u16;
    let entering = new_byte as u16;
    let a0 = r.0.wrapping_sub(leaving);
    let a = a0.wrapping_add(entering);
    let p = leaving.wrapping_mul(size);
    let b0 = r.1.wrapping_sub(p);
    let b = b0.wrapping_add(a);
    lemma_wrapping_is_modular(r.0, leaving);
    lemma_wrapping_is_modular(a0, entering);
    lemma_wrapping_is_modular(leaving, size);
    lemma_wrapping_is_modular(r.1, p);
    lemma_wrapping_is_modular(b0, a);
    // a == (r.0 - leaving + entering) % m
    lemma_small_mod(entering as nat, m as nat);
    lemma_add_mod_noop(r.0 - leaving, entering as int, m);
    assert(a as int == (r.0 - old_byte + new_byte) % m);
    // p == (leaving * blocksize) % m
    assert(size as int == blocksize as int % m);
    lemma_mul_mod_noop_general(leaving as int, blocksize as int, m);
    assert(p as int == (old_byte * blocksize) % m);
    // b0 == (r.1 - leaving * blocksize) % m
    vstd::arithmetic::div_mod::lemma_sub_mod_noop_right(r.1 as int, old_byte * blocksize, m);
    assert(b0 as int == (r.1 - old_byte * blocksize) % m);
    // b == (r.1 - leaving * blocksize + a) % m
    lemma_small_mod(a as nat, m as nat);
    lemma_add_mod_noop(r.1 - old_byte * blocksize, a as int, m);
    assert(b as int == (r.1 - old_byte * blocksize + a) % m);
}

/// Sums over a window and over the window moved on by one byte, taken over
/// the first `k` bytes of the moved window.
proof fn lemma_sums_of_shifted_prefix(s: Seq<u8>, entering: u8, k: int)
    requires
        s.len() >= 1,
        0 <= k < s.len(),
    ensures
        byte_sum(s.drop_first().push(entering), k) == byte_sum(s, k + 1) - s[0],
        weighted_sum(s.drop_first().push(entering), k) == weighted_sum(s, k + 1) - s.len() * (
        s[0] as int) + byte_sum(s, k + 1) - s[0],
    decreases k,
{
    let t = s.drop_first().push(entering);
    if k > 0 {
        lemma_sums_of_shifted_prefix(s, entering, k - 1);
        assert(t[k - 1] == s[k]);
        assert(t.len() == s.len());
        assert((t.len() - (k - 1)) * (t[k - 1] as int) == (s.len() - k) * (s[k] as int) + s[k])
            by (nonlinear_arith)
            requires
                t.len() == s.len(),
                t[k - 1] == s[k],
        ;
    } else {
        assert(byte_sum(s, 1) == byte_sum(s, 0) + s[0]);
        assert(weighted_sum(s, 1) == weighted_sum(s, 0) + (s.len() - 0) * (s[0] as int));
    }
}

/// Moving the window on by one byte and updating the checksum in constant
/// time gives the checksum that a full computation gives on the moved
/// window: for every window of at least one byte and every entering byte,
/// with the window's length as the block size.
pub proof fn lemma_update_is_calculate(window: Seq<u8>, entering: u8)
    requires
        1 <= window.len() <= usize::MAX,
    ensures
        Rsum::of(window).shifted(window[0], entering, window.len() as usize) == Rsum::of(
            window.drop_first().push(entering),
        ),
{
    let m = rsum_modulus();
    let n = window.len() as int;
    let t = window.drop_first().push(entering);
    let sa = byte_sum(window, n);
    let sb = weighted_sum(window, n);
    let leaving = window[0] as int;
    lemma_sums_of_shifted_prefix(window, entering, n - 1);
    assert(t.len() == n);
    assert(t[n - 1] == entering);
    let ta = byte_sum(t, n);
    let tb = weighted_sum(t, n);
    assert(ta == byte_sum(t, n - 1) + t[n - 1] as int);
    assert(ta == sa - leaving + entering);
    let last_weight = t.len() - (n - 1);
    assert(last_weight == 1);
    assert(last_weight * (t[n - 1] as int) == entering as int) by (nonlinear_arith)
        requires
            last_weight == 1,
            t[n - 1] == entering,
    ;
    assert(tb == weighted_sum(t, n - 1) + last_weight * (t[n - 1] as int));
    assert(window.len() * (window[0] as int) == n * leaving);
    assert(tb == sb - n * leaving + ta);
    let r = Rsum::of(window);
    // first component
    lemma_sub_mod_noop(sa, leaving, m);
    lemma_small_mod(leaving as nat, m as nat);
    lemma_small_mod(entering as nat, m as nat);
    lemma_add_mod_noop(sa - leaving, entering as int, m);
    lemma_add_mod_noop((sa % m) - leaving, entering as int, m);
    assert((r.0 - leaving + entering) % m == ta % m);
    // second component
    let a = (r.0 - leaving + entering) % m;
    lemma_sub_mod_noop(sb, leaving * n, m);
    lemma_sub_mod_noop(sb % m, leaving * n, m);
    vstd::arithmetic::div_mod::lemma_mod_twice(sb, m);
    assert(((sb % m) - leaving * n) % m == (sb - leaving * n) % m);
    lemma_add_mod_noop(sb - leaving * n, ta, m);
    lemma_add_mod_noop((sb % m) - leaving * n, ta % m, m);
    vstd::arithmetic::div_mod::lemma_mod_twice(ta, m);
    assert(leaving * n == n * leaving) by (nonlinear_arith);
    assert((r.1 - leaving * n + a) % m == tb % m);
}

/// The MD4 digest of `data`, as the `md4` crate computes it: a function of
/// the bytes alone.
pub uninterp spec fn md4_digest(data: Seq<u8>) -> Seq<u8>;

/// Calls `Md4::new`, `input` and `result` of the `md4` crate on `data` and
/// copies the sixteen bytes that come back.  Believed, not proved: the
/// bytes are the MD4 digest of `data`, the same for the same input.
#[verifier::external_body]
fn md4_of(data: &[u8]) -> (digest: [u8; 16])
    ensures
        digest@ == md4_digest(data@),
{
    let mut hasher = Md4::new();
    hasher.input(data);
    let mut digest = [0u8; 16];
    digest.copy_from_slice(hasher.result().as_slice());
    digest
}

/// A full strong digest of a block's content.
#[derive(Copy, Clone, Debug)]
pub struct MD4Digest(pub [u8; 16]);

impl PartialEq for MD4Digest {
    fn eq(&self, other: &Self) -> (r: bool) {
        let mut i: usize = 0;
        while i < 16
            invariant
                i <= 16,
                forall|j: int| 0 <= j < i ==> self.0@[j] == other.0@[j],
            decreases 16 - i,
        {
            if self.0[i] != other.0[i] {
                return false;
            }
            i += 1;
        }
        assert(self.0@ =~= other.0@);
        true
    }
}

impl PartialEqSpecImpl for MD4Digest {
    open spec fn obeys_eq_spec() -> bool {
        true
    }

    open spec fn eq_spec(&self, other: &Self) -> bool {
        self.0@ == other.0@
    }
}

impl Default for MD4Digest {
    fn default() -> (r: Self)
        ensures
            r.0@ == Seq::new(16, |i: int| 0u8),
    {
        let r = MD4Digest([0u8; 16]);
        assert(r.0@ =~= Seq::new(16, |i: int| 0u8));
        r
    }
}

impl From<[u8; 16]> for MD4Digest {
    fn from(x: [u8; 16]) -> (r: Self) {
        MD4Digest(x)
    }
}

impl FromSpecImpl<[u8; 16]> for MD4Digest {
    open spec fn obeys_from_spec() -> bool {
        true
    }

    open spec fn from_spec(x: [u8; 16]) -> Self {
        MD4Digest(x)
    }
}

impl MD4Digest {
    /// The digest of a whole block.
    pub fn calculate(data: &[u8]) -> (r: Self)
        ensures
            r.0@ == md4_digest(data@),
    {
        MD4Digest(md4_of(data))
    }
}

/// 256 to the power `k`.
pub open spec fn radix_power(k: int) -> int
    decreases k,
{
    if k <= 0 {
        1
    } else {
        256 * radix_power(k - 1)
    }
}

/// The first `k` bytes of `s` read as one number, first byte most
/// significant.
pub open spec fn packed(s: Seq<u8>, k: int) -> int
    decreases k,
{
    if k <= 0 {
        0
    } else {
        packed(s, k - 1) * 256 + s[k - 1] as int
    }
}

/// Powers of 256 grow with the exponent.
proof fn lemma_radix_power_grows(i: int, j: int)
    requires
        0 <= i <= j,
    ensures
        1 <= radix_power(i) <= radix_power(j),
    decreases j,
{
    if i < j {
        lemma_radix_power_grows(i, j - 1);
    } else if i > 0 {
        lemma_radix_power_grows(i - 1, i - 1);
    }
}

/// Sixteen bytes fill a number of 128 bits.
proof fn lemma_radix_power_16()
    ensures
        radix_power(16) == 0x1_0000_0000_0000_0000_0000_0000_0000_0000,
{
    reveal_with_fuel(radix_power, 17);
}

/// `k` bytes pack into a number below 256 to the power `k`.
proof fn lemma_packed_bound(s: Seq<u8>, k: int)
    requires
        0 <= k,
    ensures
        0 <= packed(s, k) < radix_power(k),
    decreases k,
{
    if k > 0 {
        lemma_packed_bound(s, k - 1);
    }
}

/// Numbers packed from the same count of bytes are equal only if the bytes
/// are.
proof fn lemma_packed_injective(s: Seq<u8>, t: Seq<u8>, k: int)
    requires
        0 <= k <= s.len(),
        k <= t.len(),
        packed(s, k) == packed(t, k),
    ensures
        s.take(k) == t.take(k),
    decreases k,
{
    if k > 0 {
        lemma_packed_injective(s, t, k - 1);
        assert(s.take(k) =~= s.take(k - 1).push(s[k - 1]));
        assert(t.take(k) =~= t.take(k - 1).push(t[k - 1]));
    } else {
        assert(s.take(0) =~= t.take(0));
    }
}

/// A strong digest together with the number of its leading bytes that
/// count.  Bytes from `length` on never take part in a comparison; a
/// `length` above sixteen counts as sixteen.
#[derive(Copy, Clone, Debug)]
pub struct PartialChecksum {
    pub value: MD4Digest,
    pub length: usize,
}

/// How many leading bytes of a digest count at the length `length`: a
/// length above sixteen counts as sixteen.
pub open spec fn compared_bytes(length: usize) -> int {
    if length < 16 {
        length as int
    } else {
        16
    }
}

/// Whether two digests have the same bytes as far as `length` reaches.
pub open spec fn digests_agree(a: Seq<u8>, b: Seq<u8>, length: usize) -> bool {
    a.take(compared_bytes(length)) == b.take(compared_bytes(length))
}

/// The first `length` bytes of `digest`, followed by zeros up to sixteen
/// bytes.
pub open spec fn padded_digest(digest: Seq<u8>, length: usize) -> Seq<u8> {
    Seq::new(
        16,
        |i: int|
            if i < length {
                digest[i]
            } else {
                0u8
            },
    )
}

/// The number under which the block index files a digest of which
/// `length` bytes count: the padded bytes, first byte most significant.
pub open spec fn digest_key(digest: Seq<u8>, length: usize) -> u128 {
    packed(padded_digest(digest, length), 16) as u128
}

impl PartialChecksum {
    /// How many leading bytes a comparison looks at.
    pub open spec fn compared(&self) -> int {
        compared_bytes(self.length)
    }

    /// The bytes that count.
    pub open spec fn prefix(&self) -> Seq<u8> {
        self.value.0@.take(self.compared())
    }

    /// The bytes that count, followed by zeros up to sixteen bytes.
    pub open spec fn padded(&self) -> Seq<u8> {
        padded_digest(self.value.0@, self.length)
    }

    /// Whether `other` has the same bytes as this digest, as far as this
    /// digest's own length reaches: what `==` computes.
    pub open spec fn agrees_with(&self, other: &Self) -> bool {
        digests_agree(self.value.0@, other.value.0@, self.length)
    }

    /// The number under which the block index files this digest.
    pub open spec fn key_spec(&self) -> u128 {
        digest_key(self.value.0@, self.length)
    }

    /// Computes the number under which the block index files this digest.
    pub fn key(&self) -> (k: u128)
        ensures
            k == self.key_spec(),
    {
        let mut k: u128 = 0;
        let mut i: usize = 0;
        while i < 16
            invariant
                i <= 16,
                k as int == packed(self.padded(), i as int),
                k < radix_power(i as int),
            decreases 16 - i,
        {
            let byte: u8 = if i < self.length {
                self.value.0[i]
            } else {
                0
            };
            proof {
                lemma_radix_power_grows(i as int + 1, 16);
                lemma_radix_power_16();
                assert(radix_power(i as int + 1) == 256 * radix_power(i as int));
                assert(self.padded()[i as int] == byte);
            }
            k = k * 256 + byte as u128;
            i += 1;
        }
        k
    }
}

impl PartialEq for PartialChecksum {
    fn eq(&self, other: &Self) -> (r: bool) {
        let n: usize = if self.length < 16 {
            self.length
        } else {
            16
        };
        let mut i: usize = 0;
        while i < n
            invariant
                i <= n <= 16,
                n == self.compared(),
                forall|j: int| 0 <= j < i ==> self.value.0@[j] == other.value.0@[j],
            decreases n - i,
        {
            if self.value.0[i] != other.value.0[i] {
                assert(self.value.0@.take(n as int)[i as int] != other.value.0@.take(n as int)[i as int]);
                return false;
            }
            i += 1;
        }
        assert(self.value.0@.take(n as int) =~= other.value.0@.take(n as int));
        true
    }
}

impl PartialEqSpecImpl for PartialChecksum {
    open spec fn obeys_eq_spec() -> bool {
        true
    }

    open spec fn eq_spec(&self, other: &Self) -> bool {
        self.agrees_with(other)
    }
}

impl Eq for PartialChecksum {

}

impl Default for PartialChecksum {
    fn default() -> (r: Self)
        ensures
            r.length == 0,
            r.value.0@ == Seq::new(16, |i: int| 0u8),
    {
        PartialChecksum { value: MD4Digest::default(), length: 0 }
    }
}

/// Two digests compared at one length are equal exactly when they agree on
/// the bytes that count, whatever follows those bytes, and exactly then the
/// block index files them under the same number.  So a difference beyond
/// `length` is never seen, and one within `length` always is.
pub proof fn lemma_truncated_equality(a: PartialChecksum, b: PartialChecksum)
    requires
        a.length == b.length,
    ensures
        a.agrees_with(&b) <==> a.prefix() == b.prefix(),
        a.key_spec() == b.key_spec() <==> a.prefix() == b.prefix(),
        a.prefix() == b.prefix() <==> (forall|i: int|
            0 <= i < a.compared() ==> a.value.0@[i] == b.value.0@[i]),
{
    let n = a.compared();
    lemma_packed_bound(a.padded(), 16);
    lemma_packed_bound(b.padded(), 16);
    lemma_radix_power_16();
    if a.prefix() == b.prefix() {
        assert forall|i: int| 0 <= i < n implies a.value.0@[i] == b.value.0@[i] by {
            assert(a.prefix()[i] == a.value.0@[i]);
            assert(b.prefix()[i] == b.value.0@[i]);
        }
        assert(a.padded() =~= b.padded());
    }
    if forall|i: int| 0 <= i < n ==> a.value.0@[i] == b.value.0@[i] {
        assert(a.prefix() =~= b.prefix());
    }
    if a.key_spec() == b.key_spec() {
        lemma_packed_injective(a.padded(), b.padded(), 16);
        assert(a.padded().take(16) =~= a.padded());
        assert(b.padded().take(16) =~= b.padded());
        assert forall|i: int| 0 <= i < n implies a.value.0@[i] == b.value.0@[i] by {
            assert(a.padded()[i] == a.value.0@[i]);
            assert(b.padded()[i] == b.value.0@[i]);
        }
        assert(a.prefix() =~= b.prefix());
    }
}

} // verus!
