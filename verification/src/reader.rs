//! Bounds-checked, endian-aware reads over a byte slice.
//!
//! Every read returns `Option` and every offset is a `u64`. An ELF file is a set of offsets
//! that point at each other, all of them untrusted in the general case; a parser built on
//! slice indexing is one malformed `sh_offset` away from a panic.

use vstd::prelude::*;
use vstd::slice::slice_subrange;

verus! {

/// The number whose base-256 digits are `s`, least significant first.
pub open spec fn le_value(s: Seq<u8>) -> nat
    decreases s.len(),
{
    if s.len() == 0 {
        0
    } else {
        s[0] as nat + 256 * le_value(s.drop_first())
    }
}

/// The `n` bytes of `bytes` at `off`, where there are that many.
pub open spec fn bytes_at(bytes: Seq<u8>, off: int, n: int) -> Option<Seq<u8>> {
    if off + n <= bytes.len() {
        Some(bytes.subrange(off, off + n))
    } else {
        None
    }
}

/// The `n`-byte number at `off`, in the given byte order.
pub open spec fn word_at(bytes: Seq<u8>, little: bool, off: int, n: int) -> Option<nat> {
    match bytes_at(bytes, off, n) {
        Some(s) => Some(le_value(if little { s } else { s.reverse() })),
        None => None,
    }
}

/// The little-endian `u16` at `off`, or 0 past the end.
pub open spec fn le16(bytes: Seq<u8>, off: int) -> u16 {
    match word_at(bytes, true, off, 2) {
        Some(v) => v as u16,
        None => 0,
    }
}

/// The little-endian `u32` at `off`, or 0 past the end.
pub open spec fn le32(bytes: Seq<u8>, off: int) -> u32 {
    match word_at(bytes, true, off, 4) {
        Some(v) => v as u32,
        None => 0,
    }
}

/// The little-endian `u64` at `off`, or 0 past the end.
pub open spec fn le64(bytes: Seq<u8>, off: int) -> u64 {
    match word_at(bytes, true, off, 8) {
        Some(v) => v as u64,
        None => 0,
    }
}

/// The byte at `off`, or 0 past the end.
pub open spec fn byte_or_zero(bytes: Seq<u8>, off: int) -> u8 {
    if off < bytes.len() {
        bytes[off]
    } else {
        0
    }
}

/// How many bytes of `s` stand before its first NUL, or all of them.
pub open spec fn before_nul(s: Seq<u8>) -> nat
    decreases s.len(),
{
    if s.len() == 0 || s[0] == 0 {
        0
    } else {
        1 + before_nul(s.drop_first())
    }
}

/// The bytes from `off` up to the next NUL, at most `max` of them; nothing past the end.
pub open spec fn cstr(bytes: Seq<u8>, off: int, max: int) -> Option<Seq<u8>> {
    if off > bytes.len() {
        None
    } else {
        let room = bytes.len() - off;
        let window = bytes.subrange(off, off + if max < room { max } else { room });
        Some(window.take(before_nul(window) as int))
    }
}

/// 256 to the power `n`.
pub open spec fn pow256(n: nat) -> nat
    decreases n,
{
    if n == 0 {
        1
    } else {
        256 * pow256((n - 1) as nat)
    }
}

/// A number of `n` base-256 digits is below 256 to the power `n`.
pub proof fn lemma_le_value_bound(s: Seq<u8>)
    ensures
        le_value(s) < pow256(s.len()),
    decreases s.len(),
{
    if s.len() > 0 {
        lemma_le_value_bound(s.drop_first());
    }
}

proof fn lemma_pow256_values()
    ensures
        pow256(0) == 1,
        pow256(1) == 0x100,
        pow256(2) == 0x1_0000,
        pow256(3) == 0x100_0000,
        pow256(4) == 0x1_0000_0000,
        pow256(5) == 0x100_0000_0000,
        pow256(6) == 0x1_0000_0000_0000,
        pow256(7) == 0x100_0000_0000_0000,
        pow256(8) == 0x1_0000_0000_0000_0000,
{
    reveal_with_fuel(pow256, 9);
}

/// The first NUL is where `before_nul` says, and nothing before it is one.
pub proof fn lemma_before_nul(s: Seq<u8>)
    ensures
        before_nul(s) <= s.len(),
        forall|i: int| 0 <= i < before_nul(s) ==> s[i] != 0,
        before_nul(s) < s.len() ==> s[before_nul(s) as int] == 0,
    decreases s.len(),
{
    if s.len() > 0 && s[0] != 0 {
        let t = s.drop_first();
        lemma_before_nul(t);
        assert forall|i: int| 0 <= i < before_nul(s) implies s[i] != 0 by {
            if i > 0 {
                assert(s[i] == t[i - 1]);
            }
        }
        if before_nul(s) < s.len() {
            assert(s[before_nul(s) as int] == t[before_nul(t) as int]);
        }
    }
}

#[derive(Clone, Copy, Debug)]
pub struct Reader<'a> {
    bytes: &'a [u8],
    little_endian: bool,
}

impl<'a> Reader<'a> {
    /// The bytes read from.
    pub closed spec fn all(&self) -> Seq<u8> {
        self.bytes@
    }

    /// Whether multi-byte reads are little-endian.
    pub closed spec fn little(&self) -> bool {
        self.little_endian
    }

    #[must_use]
    pub fn new(bytes: &'a [u8], little_endian: bool) -> (r: Self)
        ensures
            r.all() == bytes@,
            r.little() == little_endian,
    {
        Self { bytes, little_endian }
    }

    #[must_use]
    pub fn len(&self) -> (r: u64)
        ensures
            r == self.all().len(),
    {
        self.bytes.len() as u64
    }

    #[must_use]
    pub fn is_empty(&self) -> (r: bool)
        ensures
            r == (self.all().len() == 0),
    {
        self.bytes.len() == 0
    }

    /// `len` bytes at `off`, or `None` if that runs past the end.
    #[must_use]
    pub fn slice_at(&self, off: u64, len: u64) -> (r: Option<&'a [u8]>)
        ensures
            r is Some <==> off + len <= self.all().len(),
            r matches Some(s) ==> Some(s@) == bytes_at(self.all(), off as int, len as int),
    {
        let total: u64 = self.bytes.len() as u64;
        if off > total || len > total - off {
            return None;
        }
        Some(slice_subrange(self.bytes, off as usize, (off + len) as usize))
    }

    /// The `n`-byte number at `off`.
    fn value_at(&self, off: u64, n: u64) -> (r: Option<u64>)
        requires
            n <= 8,
        ensures
            r is Some <==> off + n <= self.all().len(),
            r matches Some(v) ==> Some(v as nat) == word_at(
                self.all(),
                self.little(),
                off as int,
                n as int,
            ) && v < pow256(n as nat),
    {
        let s: &[u8] = match self.slice_at(off, n) {
            Some(s) => s,
            None => return None,
        };
        let ghost whole = if self.little_endian {
            s@
        } else {
            s@.reverse()
        };
        let mut v: u64 = 0;
        let mut i: usize = n as usize;
        assert(whole.skip(n as int) =~= Seq::<u8>::empty());
        while i > 0
            invariant
                i <= n <= 8,
                s@.len() == n,
                whole == (if self.little_endian {
                    s@
                } else {
                    s@.reverse()
                }),
                v == le_value(whole.skip(i as int)),
            decreases i,
        {
            i = i - 1;
            proof {
                let tail = whole.skip(i + 1);
                lemma_le_value_bound(tail);
                lemma_pow256_values();
                assert(whole.skip(i as int).drop_first() =~= tail);
                assert(tail.len() <= 7);
            }
            let b: u8 = if self.little_endian {
                s[i]
            } else {
                s[s.len() - 1 - i]
            };
            assert(b == whole[i as int]);
            assert(v < 0x100_0000_0000_0000);
            v = v * 256 + b as u64;
        }
        proof {
            assert(whole.skip(0) =~= whole);
            lemma_le_value_bound(whole);
        }
        Some(v)
    }

    #[must_use]
    pub fn u8_at(&self, off: u64) -> (r: Option<u8>)
        ensures
            r == (if off < self.all().len() {
                Some(self.all()[off as int])
            } else {
                None
            }),
    {
        match self.slice_at(off, 1) {
            Some(s) => Some(s[0]),
            None => None,
        }
    }

    #[must_use]
    pub fn u16_at(&self, off: u64) -> (r: Option<u16>)
        ensures
            r is Some <==> off + 2 <= self.all().len(),
            r matches Some(v) ==> Some(v as nat) == word_at(
                self.all(),
                self.little(),
                off as int,
                2,
            ),
    {
        proof {
            lemma_pow256_values();
        }
        match self.value_at(off, 2) {
            Some(v) => Some(v as u16),
            None => None,
        }
    }

    #[must_use]
    pub fn u32_at(&self, off: u64) -> (r: Option<u32>)
        ensures
            r is Some <==> off + 4 <= self.all().len(),
            r matches Some(v) ==> Some(v as nat) == word_at(
                self.all(),
                self.little(),
                off as int,
                4,
            ),
    {
        proof {
            lemma_pow256_values();
        }
        match self.value_at(off, 4) {
            Some(v) => Some(v as u32),
            None => None,
        }
    }

    #[must_use]
    pub fn u64_at(&self, off: u64) -> (r: Option<u64>)
        ensures
            r is Some <==> off + 8 <= self.all().len(),
            r matches Some(v) ==> Some(v as nat) == word_at(
                self.all(),
                self.little(),
                off as int,
                8,
            ),
    {
        self.value_at(off, 8)
    }

    /// The eight bytes at `off` as a two's complement number.
    #[must_use]
    pub fn i64_at(&self, off: u64) -> (r: Option<i64>)
        ensures
            r is Some <==> off + 8 <= self.all().len(),
            r matches Some(v) ==> v == (word_at(
                self.all(),
                self.little(),
                off as int,
                8,
            )->0 as u64) as i64,
    {
        match self.u64_at(off) {
            Some(v) => Some(v as i64),
            None => None,
        }
    }

    /// Bytes from `off` up to but excluding the next NUL, capped at `max`.
    ///
    /// Returns `None` only if `off` is out of bounds: an unterminated string at the end
    /// of a truncated table is a fact about the file, not a parse failure.
    #[must_use]
    pub fn cstr_at(&self, off: u64, max: u64) -> (r: Option<&'a [u8]>)
        ensures
            r is Some <==> off <= self.all().len(),
            r matches Some(s) ==> Some(s@) == cstr(self.all(), off as int, max as int),
    {
        let total: u64 = self.bytes.len() as u64;
        if off > total {
            return None;
        }
        let room: u64 = total - off;
        let span: u64 = if max < room { max } else { room };
        let window = slice_subrange(self.bytes, off as usize, (off + span) as usize);
        proof {
            lemma_before_nul(window@);
        }
        let mut end: usize = 0;
        while end < window.len() && window[end] != 0
            invariant
                end <= before_nul(window@) <= window@.len(),
                forall|i: int| 0 <= i < before_nul(window@) ==> window@[i] != 0,
                before_nul(window@) < window@.len() ==> window@[before_nul(window@) as int] == 0,
            decreases window.len() - end,
        {
            end = end + 1;
        }
        Some(slice_subrange(window, 0, end))
    }

    /// The `u16` at `off`, or 0 past the end.
    pub(crate) fn u16_or_zero(&self, off: u64) -> (r: u16)
        requires
            self.little(),
        ensures
            r == le16(self.all(), off as int),
    {
        match self.u16_at(off) {
            Some(v) => v,
            None => 0,
        }
    }

    /// The `u32` at `off`, or 0 past the end.
    pub(crate) fn u32_or_zero(&self, off: u64) -> (r: u32)
        requires
            self.little(),
        ensures
            r == le32(self.all(), off as int),
    {
        match self.u32_at(off) {
            Some(v) => v,
            None => 0,
        }
    }

    /// The `u64` at `off`, or 0 past the end.
    pub(crate) fn u64_or_zero(&self, off: u64) -> (r: u64)
        requires
            self.little(),
        ensures
            r == le64(self.all(), off as int),
    {
        match self.u64_at(off) {
            Some(v) => v,
            None => 0,
        }
    }

    /// The byte at `off`, or 0 past the end.
    pub(crate) fn u8_or_zero(&self, off: u64) -> (r: u8)
        ensures
            r == byte_or_zero(self.all(), off as int),
    {
        match self.u8_at(off) {
            Some(v) => v,
            None => 0,
        }
    }
}

/// Reading the other way round is reading the reversed bytes.
pub proof fn law_byte_order_is_reversal(bytes: Seq<u8>, off: int, n: int)
    requires
        0 <= off,
        0 <= n,
        off + n <= bytes.len(),
    ensures
        word_at(bytes, false, off, n) == word_at(
            bytes.reverse(),
            true,
            bytes.len() - off - n,
            n,
        ),
{
    assert(bytes.subrange(off, off + n).reverse() =~= bytes.reverse().subrange(
        bytes.len() - off - n,
        bytes.len() - off,
    ));
}

/// A string read stops at the first NUL or at the cap, whichever comes first, and holds
/// no NUL itself.
pub proof fn law_cstr_stops_at_nul_or_cap(bytes: Seq<u8>, off: int, max: int)
    requires
        0 <= off <= bytes.len(),
        0 <= max,
    ensures
        cstr(bytes, off, max) is Some,
        ({
            let s = cstr(bytes, off, max)->0;
            &&& s.len() <= max
            &&& off + s.len() <= bytes.len()
            &&& s == bytes.subrange(off, off + s.len())
            &&& forall|i: int| 0 <= i < s.len() ==> s[i] != 0
            &&& s.len() == max || off + s.len() == bytes.len() || bytes[off + s.len()] == 0
        }),
{
    let room = bytes.len() - off;
    let window = bytes.subrange(off, off + if max < room { max } else { room });
    lemma_before_nul(window);
    let s = cstr(bytes, off, max)->0;
    assert(s =~= bytes.subrange(off, off + s.len()));
}

/// A number is written lowest byte first: each byte counts 256 times what the one before it
/// counts. Where the file ends before the number does, it is read as 0.
pub proof fn law_the_lowest_byte_comes_first(b: Seq<u8>, off: int)
    requires
        0 <= off,
    ensures
        le16(b, off) == if off + 2 <= b.len() {
            b[off] + 256 * b[off + 1]
        } else {
            0
        },
        le32(b, off) == if off + 4 <= b.len() {
            b[off] + 256 * b[off + 1] + 0x1_0000 * b[off + 2] + 0x100_0000 * b[off + 3]
        } else {
            0
        },
        le64(b, off) == if off + 8 <= b.len() {
            b[off] + 256 * b[off + 1] + 0x1_0000 * b[off + 2] + 0x100_0000 * b[off + 3]
                + 0x1_0000_0000 * b[off + 4] + 0x100_0000_0000 * b[off + 5] + 0x1_0000_0000_0000
                * b[off + 6] + 0x100_0000_0000_0000 * b[off + 7]
        } else {
            0
        },
{
    if off + 2 <= b.len() {
        lemma_first_byte(b, off, 2);
        lemma_first_byte(b, off + 1, 1);
        lemma_first_byte(b, off + 2, 0);
    }
    if off + 4 <= b.len() {
        lemma_first_byte(b, off, 4);
        lemma_first_byte(b, off + 1, 3);
        lemma_first_byte(b, off + 2, 2);
        lemma_first_byte(b, off + 3, 1);
        lemma_first_byte(b, off + 4, 0);
    }
    if off + 8 <= b.len() {
        lemma_first_byte(b, off, 8);
        lemma_first_byte(b, off + 1, 7);
        lemma_first_byte(b, off + 2, 6);
        lemma_first_byte(b, off + 3, 5);
        lemma_first_byte(b, off + 4, 4);
        lemma_first_byte(b, off + 5, 3);
        lemma_first_byte(b, off + 6, 2);
        lemma_first_byte(b, off + 7, 1);
        lemma_first_byte(b, off + 8, 0);
    }
}

proof fn lemma_first_byte(b: Seq<u8>, off: int, n: int)
    requires
        0 <= off,
        0 <= n,
        off + n <= b.len(),
    ensures
        n == 0 ==> le_value(b.subrange(off, off + n)) == 0,
        n > 0 ==> le_value(b.subrange(off, off + n)) == b[off] + 256 * le_value(
            b.subrange(off + 1, off + n),
        ),
{
    if n > 0 {
        assert(b.subrange(off, off + n).drop_first() =~= b.subrange(off + 1, off + n));
    }
}

} // verus!
