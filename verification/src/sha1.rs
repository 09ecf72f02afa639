//! SHA-1 (FIPS 180-4), streaming over bytes, with a lowercase hex digest.
use vstd::prelude::*;
use crate::chars::string_from_chars;
use vstd::string::StringSliceAdditionalSpecFns;

verus! {

/// The initial hash value `H(0)`.
pub open spec fn initial_words() -> Seq<u32> {
    seq![0x67452301u32, 0xEFCDAB89u32, 0x98BADCFEu32, 0x10325476u32, 0xC3D2E1F0u32]
}

/// Rotation of a 32-bit word left by `n` bits, `0 < n < 32`.
pub open spec fn rotl(x: u32, n: u32) -> u32 {
    (x << n) | (x >> (32 - n) as u32)
}

/// Word `i` of a block, read big-endian.
pub open spec fn block_word(block: Seq<u8>, i: int) -> u32 {
    (block[4 * i] as int * 0x1000000 + block[4 * i + 1] as int * 0x10000 + block[4 * i + 2] as int * 0x100
        + block[4 * i + 3] as int) as u32
}

/// The message schedule `W(i)`, `0 <= i < 80`.
pub open spec fn schedule(block: Seq<u8>, i: int) -> u32
    decreases i,
{
    if i < 16 {
        block_word(block, i)
    } else {
        rotl(schedule(block, i - 3) ^ schedule(block, i - 8) ^ schedule(block, i - 14) ^ schedule(block, i - 16), 1)
    }
}

/// The logical function of round `i`.
pub open spec fn round_f(i: int, b: u32, c: u32, d: u32) -> u32 {
    if i < 20 {
        (b & c) | (!b & d)
    } else if i < 40 {
        b ^ c ^ d
    } else if i < 60 {
        (b & c) | (b & d) | (c & d)
    } else {
        b ^ c ^ d
    }
}

/// The constant of round `i`.
pub open spec fn round_k(i: int) -> u32 {
    if i < 20 {
        0x5A827999u32
    } else if i < 40 {
        0x6ED9EBA1u32
    } else if i < 60 {
        0x8F1BBCDCu32
    } else {
        0xCA62C1D6u32
    }
}

/// The working variables `a, b, c, d, e` after the first `i` rounds on
/// `block`, starting from `h`.
pub open spec fn rounds(h: Seq<u32>, block: Seq<u8>, i: int) -> Seq<u32>
    decreases i,
{
    if i <= 0 {
        h
    } else {
        let p = rounds(h, block, i - 1);
        let temp = rotl(p[0], 5).wrapping_add(round_f(i - 1, p[1], p[2], p[3])).wrapping_add(p[4]).wrapping_add(
            round_k(i - 1),
        ).wrapping_add(schedule(block, i - 1));
        seq![temp, p[0], rotl(p[1], 30), p[2], p[3]]
    }
}

/// The compression function: the hash value after one 64-byte block.
pub open spec fn compress(h: Seq<u32>, block: Seq<u8>) -> Seq<u32> {
    let r = rounds(h, block, 80);
    seq![
        h[0].wrapping_add(r[0]),
        h[1].wrapping_add(r[1]),
        h[2].wrapping_add(r[2]),
        h[3].wrapping_add(r[3]),
        h[4].wrapping_add(r[4]),
    ]
}

/// The hash value after every whole 64-byte block of `data`, in order; a
/// trailing part shorter than a block is left out.
pub open spec fn compress_blocks(h: Seq<u32>, data: Seq<u8>) -> Seq<u32>
    decreases data.len(),
{
    if data.len() < 64 {
        h
    } else {
        compress_blocks(compress(h, data.take(64)), data.skip(64))
    }
}

/// `n` zero bytes.
pub open spec fn zeros(n: int) -> Seq<u8> {
    Seq::new(n as nat, |i: int| 0u8)
}

/// A 64-bit length, big-endian.
pub open spec fn length_bytes(bits: u64) -> Seq<u8> {
    seq![
        (bits >> 56u64) as u8,
        (bits >> 48u64) as u8,
        (bits >> 40u64) as u8,
        (bits >> 32u64) as u8,
        (bits >> 24u64) as u8,
        (bits >> 16u64) as u8,
        (bits >> 8u64) as u8,
        bits as u8,
    ]
}

/// The padded message: `0x80`, as many zero bytes as make the length 56
/// modulo 64, then the bit length as a 64-bit big-endian number.
pub open spec fn padded(msg: Seq<u8>) -> Seq<u8> {
    msg + seq![0x80u8] + zeros((55 - msg.len() as int) % 64) + length_bytes((msg.len() * 8) as u64)
}

/// The SHA-1 hash value of a message of fewer than 2^61 bytes.
pub open spec fn sha1_words(msg: Seq<u8>) -> Seq<u32> {
    compress_blocks(initial_words(), padded(msg))
}

/// Lowercase hex digit of `d < 16`.
pub open spec fn hex_digit(d: u32) -> char {
    if d < 10 {
        (d + 48) as char
    } else {
        (d + 87) as char
    }
}

/// A word as 8 lowercase hex digits, most significant first.
pub open spec fn word_hex(w: u32) -> Seq<char> {
    Seq::new(8, |i: int| hex_digit((w >> (28 - 4 * i) as u32) & 0xf))
}

/// The hex digits of the first `n` words.
pub open spec fn words_hex_prefix(h: Seq<u32>, n: int) -> Seq<char>
    decreases n,
{
    if n <= 0 {
        Seq::empty()
    } else {
        words_hex_prefix(h, n - 1) + word_hex(h[n - 1])
    }
}

/// The digest text: the five words as 40 lowercase hex digits.
pub open spec fn words_hex(h: Seq<u32>) -> Seq<char> {
    word_hex(h[0]) + word_hex(h[1]) + word_hex(h[2]) + word_hex(h[3]) + word_hex(h[4])
}

/// One compression: `h` becomes `compress(h, data[start .. start + 64])`.
fn compress_block(h: &mut Vec<u32>, data: &[u8], start: usize)
    requires
        old(h)@.len() == 5,
        start + 64 <= data@.len(),
    ensures
        final(h)@ == compress(old(h)@, data@.subrange(start as int, start + 64)),
{
    let ghost block = data@.subrange(start as int, start + 64);
    let dlen = data.len();
    let mut w: Vec<u32> = Vec::new();
    let mut i: usize = 0;
    while i < 16
        invariant
            start + 64 <= data@.len(),
            dlen == data@.len(),
            block == data@.subrange(start as int, start + 64),
            i <= 16,
            w@.len() == i,
            forall|j: int| 0 <= j < i ==> #[trigger] w@[j] == schedule(block, j),
        decreases 16 - i,
    {
        let b0 = data[start + 4 * i] as u32;
        let b1 = data[start + 4 * i + 1] as u32;
        let b2 = data[start + 4 * i + 2] as u32;
        let b3 = data[start + 4 * i + 3] as u32;
        let word = b0 * 0x1000000 + b1 * 0x10000 + b2 * 0x100 + b3;
        assert(word == block_word(block, i as int));
        w.push(word);
        i = i + 1;
    }
    while i < 80
        invariant
            16 <= i <= 80,
            w@.len() == i,
            forall|j: int| 0 <= j < i ==> #[trigger] w@[j] == schedule(block, j),
        decreases 80 - i,
    {
        let x = w[i - 3] ^ w[i - 8] ^ w[i - 14] ^ w[i - 16];
        let word = (x << 1u32) | (x >> 31u32);
        assert(word == schedule(block, i as int));
        w.push(word);
        i = i + 1;
    }
    let mut a = h[0];
    let mut b = h[1];
    let mut c = h[2];
    let mut d = h[3];
    let mut e = h[4];
    let mut i: usize = 0;
    assert(rounds(old(h)@, block, 0) =~= seq![a, b, c, d, e]);
    while i < 80
        invariant
            i <= 80,
            w@.len() == 80,
            forall|j: int| 0 <= j < 80 ==> #[trigger] w@[j] == schedule(block, j),
            h@ == old(h)@,
            old(h)@.len() == 5,
            rounds(old(h)@, block, i as int) == seq![a, b, c, d, e],
        decreases 80 - i,
    {
        let (f, k) = if i < 20 {
            ((b & c) | (!b & d), 0x5A827999u32)
        } else if i < 40 {
            (b ^ c ^ d, 0x6ED9EBA1u32)
        } else if i < 60 {
            ((b & c) | (b & d) | (c & d), 0x8F1BBCDCu32)
        } else {
            (b ^ c ^ d, 0xCA62C1D6u32)
        };
        let temp = ((a << 5u32) | (a >> 27u32)).wrapping_add(f).wrapping_add(e).wrapping_add(k).wrapping_add(w[i]);
        e = d;
        d = c;
        c = (b << 30u32) | (b >> 2u32);
        b = a;
        a = temp;
        i = i + 1;
        assert(rounds(old(h)@, block, i as int) =~= seq![a, b, c, d, e]);
    }
    let h0 = h[0].wrapping_add(a);
    let h1 = h[1].wrapping_add(b);
    let h2 = h[2].wrapping_add(c);
    let h3 = h[3].wrapping_add(d);
    let h4 = h[4].wrapping_add(e);
    h.set(0, h0);
    h.set(1, h1);
    h.set(2, h2);
    h.set(3, h3);
    h.set(4, h4);
    assert(h@ =~= compress(old(h)@, block));
}


/// Compressing `x` and then `y` is compressing `x + y`, when `x` is made of
/// whole blocks.
pub proof fn lemma_compress_blocks_concat(h: Seq<u32>, x: Seq<u8>, y: Seq<u8>)
    requires
        x.len() % 64 == 0,
    ensures
        compress_blocks(h, x + y) == compress_blocks(compress_blocks(h, x), y),
    decreases x.len(),
{
    if x.len() == 0 {
        assert(x + y =~= y);
    } else {
        assert((x + y).take(64) =~= x.take(64));
        assert((x + y).skip(64) =~= x.skip(64) + y);
        lemma_compress_blocks_concat(compress(h, x.take(64)), x.skip(64), y);
    }
}

/// Compressing one more block.
proof fn lemma_compress_blocks_push(h: Seq<u32>, x: Seq<u8>, b: Seq<u8>)
    requires
        x.len() % 64 == 0,
        b.len() == 64,
    ensures
        compress_blocks(h, x + b) == compress(compress_blocks(h, x), b),
{
    lemma_compress_blocks_concat(h, x, b);
    let h1 = compress_blocks(h, x);
    assert(b.take(64) =~= b);
    assert(b.skip(64).len() == 0);
    assert(compress_blocks(h1, b) == compress_blocks(compress(h1, b.take(64)), b.skip(64)));
}

/// Bytes absorbed into a state `(hash value, pending bytes, length of the
/// blocks already compressed)`: every whole block of the pending bytes
/// followed by `data` is compressed, the rest stays pending.
pub open spec fn absorb(st: (Seq<u32>, Seq<u8>, int), data: Seq<u8>) -> (Seq<u32>, Seq<u8>, int) {
    let all = st.1 + data;
    let n = (all.len() / 64 * 64) as int;
    (compress_blocks(st.0, all.take(n)), all.skip(n), st.2 + n)
}

/// The last one or two blocks of a message whose unprocessed tail is
/// `pending` and whose whole length is `total` bytes.
pub open spec fn final_blocks(pending: Seq<u8>, total: int) -> Seq<u8> {
    let marked = pending + seq![0x80u8];
    if marked.len() > 56 {
        marked + zeros(64 - marked.len()) + zeros(56) + length_bytes((total * 8) as u64)
    } else {
        marked + zeros(56 - marked.len()) + length_bytes((total * 8) as u64)
    }
}

/// The hash value that `digest` computes from a state.
pub open spec fn digest_words(st: (Seq<u32>, Seq<u8>, int)) -> Seq<u32> {
    compress_blocks(st.0, final_blocks(st.1, st.2 + st.1.len()))
}

/// The state that `digest` leaves behind: the final hash value, the first
/// bytes of the last block as pending bytes, and the message length.
pub open spec fn state_after_digest(st: (Seq<u32>, Seq<u8>, int)) -> (Seq<u32>, Seq<u8>, int) {
    let total = st.2 + st.1.len();
    let pending = if st.1.len() + 1 > 56 {
        (zeros(56) + length_bytes((total * 8) as u64)).take(st.1.len() + 1int)
    } else {
        st.1 + seq![0x80u8]
    };
    (digest_words(st), pending, total)
}

/// A streaming SHA-1 hasher.
pub struct Sha1 {
    h: Vec<u32>,
    buf: Vec<u8>,
    buf_len: usize,
    total_len: u64,
}

impl View for Sha1 {
    /// The hash value, the pending bytes and the number of bytes already
    /// compressed.
    type V = (Seq<u32>, Seq<u8>, int);

    closed spec fn view(&self) -> (Seq<u32>, Seq<u8>, int) {
        (self.h@, self.buf@.take(self.buf_len as int), self.total_len as int)
    }
}

impl Sha1 {
    /// The hasher's buffers have their sizes.
    pub closed spec fn well_formed(&self) -> bool {
        &&& self.h@.len() == 5
        &&& self.buf@.len() == 64
        &&& self.buf_len <= 64
    }

    /// A well-formed hasher has five hash words and at most one block pending.
    pub proof fn lemma_view_shape(&self)
        requires
            self.well_formed(),
        ensures
            self@.0.len() == 5,
            self@.1.len() <= 64,
            0 <= self@.2 <= u64::MAX,
    {
    }

    /// A fresh hasher.
    pub fn new() -> (s: Self)
        ensures
            s.well_formed(),
            s@ == (initial_words(), Seq::<u8>::empty(), 0int),
    {
        let mut h: Vec<u32> = Vec::new();
        h.push(0x67452301);
        h.push(0xEFCDAB89);
        h.push(0x98BADCFE);
        h.push(0x10325476);
        h.push(0xC3D2E1F0);
        let mut buf: Vec<u8> = Vec::new();
        while buf.len() < 64
            invariant
                buf@.len() <= 64,
            decreases 64 - buf@.len(),
        {
            buf.push(0);
        }
        let s = Sha1 { h, buf, buf_len: 0, total_len: 0 };
        assert(s@.0 =~= initial_words());
        assert(s@.1 =~= Seq::<u8>::empty());
        s
    }

    /// The number of bytes waiting for a whole block.
    pub fn pending_len(&self) -> (n: usize)
        requires
            self.well_formed(),
        ensures
            n == self@.1.len(),
    {
        self.buf_len
    }

    /// The number of bytes already compressed (after `digest`, the length of
    /// the message).
    pub fn compressed_len(&self) -> (n: u64)
        ensures
            n == self@.2,
    {
        self.total_len
    }

    /// Feeds bytes to the hasher.
    pub fn update_bytes(&mut self, data: &[u8])
        requires
            old(self).well_formed(),
            old(self)@.2 + old(self)@.1.len() + data@.len() <= u64::MAX,
        ensures
            final(self).well_formed(),
            final(self)@ == absorb(old(self)@, data@),
    {
        let ghost p0 = self@.1;
        let ghost h0 = self@.0;
        let ghost t0 = self@.2;
        let ghost all = p0 + data@;
        let len = data.len();
        let mut offset: usize = 0;
        if self.buf_len > 0 {
            let space = 64 - self.buf_len;
            let fill = if len < space { len } else { space };
            let start = self.buf_len;
            let mut i: usize = 0;
            while i < fill
                invariant
                    self.h@ == h0,
                    self.total_len == t0,
                    self.buf_len == start,
                    self.buf@.len() == 64,
                    start == p0.len(),
                    all == p0 + data@,
                    start + fill <= 64,
                    fill <= len,
                    len == data@.len(),
                    i <= fill,
                    self.buf@.take(start + i) == all.take(start + i),
                decreases fill - i,
            {
                let ghost before = self.buf@;
                self.buf.set(start + i, data[i]);
                assert(self.buf@.take(start + i + 1) =~= before.take(start + i).push(data@[i as int]));
                assert(all.take(start + i + 1) =~= all.take(start + i).push(all[start + i]));
                i = i + 1;
            }
            self.buf_len = start + fill;
            offset = fill;
            if self.buf_len == 64 {
                compress_block(&mut self.h, &self.buf, 0);
                assert(self.buf@.subrange(0, 64) =~= all.take(64));
                assert(all.take(0) =~= Seq::<u8>::empty());
                proof {
                    lemma_compress_blocks_push(h0, all.take(0), all.take(64));
                }
                assert(all.take(0) + all.take(64) =~= all.take(64));
                self.total_len = self.total_len + 64;
                self.buf_len = 0;
            }
        } else {
            assert(p0.len() == 0);
            assert(all.take(0) =~= Seq::<u8>::empty());
        }
        // Either the buffer is empty and a whole number of blocks is
        // consumed, or all the bytes are pending.
        while len - offset >= 64
            invariant
                self.h@.len() == 5,
                self.buf@.len() == 64,
                self.buf_len <= 64,
                len == data@.len(),
                all == p0 + data@,
                offset <= len,
                t0 + all.len() <= u64::MAX,
                self.buf_len == 0 ==> (p0.len() + offset) % 64 == 0
                    && self.h@ == compress_blocks(h0, all.take(p0.len() + offset))
                    && self.total_len == t0 + p0.len() + offset,
                self.buf_len != 0 ==> offset == len && all.len() < 64 && self.buf@.take(self.buf_len as int) == all
                    && self.h@ == h0 && self.total_len == t0,
            decreases len - offset,
        {
            let ghost c = p0.len() + offset;
            compress_block(&mut self.h, data, offset);
            assert(data@.subrange(offset as int, offset + 64) =~= all.subrange(c, c + 64));
            proof {
                lemma_compress_blocks_push(h0, all.take(c), all.subrange(c, c + 64));
            }
            assert(all.take(c) + all.subrange(c, c + 64) =~= all.take(c + 64));
            self.total_len = self.total_len + 64;
            offset = offset + 64;
        }
        if offset < len {
            let remaining = len - offset;
            let ghost h_mid = self.h@;
            let ghost t_mid = self.total_len;
            let ghost blen_mid = self.buf_len;
            let mut i: usize = 0;
            while i < remaining
                invariant
                    self.h@ == h_mid,
                    self.total_len == t_mid,
                    self.buf_len == blen_mid,
                    self.buf@.len() == 64,
                    remaining == len - offset,
                    remaining < 64,
                    len == data@.len(),
                    i <= remaining,
                    forall|j: int| 0 <= j < i ==> self.buf@[j] == data@[offset + j],
                decreases remaining - i,
            {
                self.buf.set(i, data[offset + i]);
                i = i + 1;
            }
            self.buf_len = remaining;
        }
        proof {
            let n = (all.len() / 64 * 64) as int;
            if self.buf_len == 0 {
                assert(p0.len() + offset == n);
                assert(all.skip(n) =~= Seq::<u8>::empty());
                assert(self.buf@.take(0) =~= Seq::<u8>::empty());
            } else if offset == len && all.len() < 64 && p0.len() + len == all.len() && self.total_len == t0 {
                assert(n == 0);
                assert(all.take(0) =~= Seq::<u8>::empty());
                assert(all.skip(0) =~= all);
            } else {
                assert(p0.len() + offset == n);
                assert(self.buf@.take(self.buf_len as int) =~= all.skip(n));
            }
        }
    }

    /// Feeds the UTF-8 bytes of a string to the hasher.
    pub fn update_str(&mut self, input: &str)
        requires
            old(self).well_formed(),
            old(self)@.2 + old(self)@.1.len() + input.spec_bytes().len() <= u64::MAX,
        ensures
            final(self).well_formed(),
            final(self)@ == absorb(old(self)@, input.spec_bytes()),
    {
        self.update_bytes(input.as_bytes());
    }

    /// Pads the message, compresses the last block(s) and returns the hash
    /// value as 40 lowercase hex digits.
    pub fn digest(&mut self) -> (r: String)
        requires
            old(self).well_formed(),
            old(self)@.1.len() < 64,
            (old(self)@.2 + old(self)@.1.len()) * 8 <= u64::MAX,
        ensures
            final(self).well_formed(),
            r@ == words_hex(digest_words(old(self)@)),
            final(self)@ == state_after_digest(old(self)@),
    {
        let ghost st = self@;
        let ghost p = st.1;
        let ghost total = st.2 + p.len();
        self.total_len = self.total_len + self.buf_len as u64;
        let ml = self.total_len * 8;
        assert(ml == (total * 8) as u64);
        let blen = self.buf_len;
        self.buf.set(blen, 0x80);
        self.buf_len = blen + 1;
        let ghost marked = p + seq![0x80u8];
        assert(self.buf@.take(blen + 1) =~= marked);
        let ghost pending_after;
        if self.buf_len > 56 {
            let mut i: usize = self.buf_len;
            while i < 64
                invariant
                    self.buf@.len() == 64,
                    self.buf_len == blen + 1,
                    self.buf_len <= i <= 64,
                    self.buf@.take(i as int) == marked + zeros(i - marked.len()),
                    self.h@ == st.0,
                    self.total_len == total,
                decreases 64 - i,
            {
                let ghost before = self.buf@;
                self.buf.set(i, 0);
                assert(self.buf@.take(i + 1) =~= before.take(i as int).push(0u8));
                assert(marked + zeros(i + 1 - marked.len()) =~= (marked + zeros(i - marked.len())).push(0u8));
                i = i + 1;
            }
            assert(self.buf@ =~= marked + zeros(64 - marked.len()));
            compress_block(&mut self.h, &self.buf, 0);
            assert(self.buf@.subrange(0, 64) =~= self.buf@);
            let ghost h_mid = self.h@;
            let mut i: usize = 0;
            while i < 64
                invariant
                    self.buf@.len() == 64,
                    self.h@ == h_mid,
                    h_mid.len() == 5,
                    self.buf_len == blen + 1,
                    self.total_len == total,
                    i <= 64,
                    forall|j: int| 0 <= j < i ==> self.buf@[j] == 0u8,
                decreases 64 - i,
            {
                self.buf.set(i, 0);
                i = i + 1;
            }
            proof {
                pending_after = (zeros(56) + length_bytes(ml)).take(blen + 1int);
            }
        } else {
            let mut i: usize = self.buf_len;
            while i < 56
                invariant
                    self.buf@.len() == 64,
                    self.buf_len == blen + 1,
                    self.buf_len <= 56,
                    self.buf_len <= i <= 56,
                    self.buf@.take(i as int) == marked + zeros(i - marked.len()),
                    self.h@ == st.0,
                    self.total_len == total,
                decreases 56 - i,
            {
                let ghost before = self.buf@;
                self.buf.set(i, 0);
                assert(self.buf@.take(i + 1) =~= before.take(i as int).push(0u8));
                assert(marked + zeros(i + 1 - marked.len()) =~= (marked + zeros(i - marked.len())).push(0u8));
                i = i + 1;
            }
            proof {
                pending_after = marked;
            }
        }
        let ghost h_before_last = self.h@;
        let ghost head = self.buf@.take(56);
        self.buf.set(56, (ml >> 56u64) as u8);
        self.buf.set(57, (ml >> 48u64) as u8);
        self.buf.set(58, (ml >> 40u64) as u8);
        self.buf.set(59, (ml >> 32u64) as u8);
        self.buf.set(60, (ml >> 24u64) as u8);
        self.buf.set(61, (ml >> 16u64) as u8);
        self.buf.set(62, (ml >> 8u64) as u8);
        self.buf.set(63, ml as u8);
        assert(self.buf@ =~= head + length_bytes(ml));
        compress_block(&mut self.h, &self.buf, 0);
        assert(self.buf@.subrange(0, 64) =~= self.buf@);
        proof {
            let fb = final_blocks(p, total);
            if marked.len() > 56 {
                let first = marked + zeros(64 - marked.len());
                let second = zeros(56) + length_bytes(ml);
                assert(head =~= zeros(56));
                assert(fb =~= first + second);
                lemma_compress_blocks_push(st.0, Seq::<u8>::empty(), first);
                assert(Seq::<u8>::empty() + first =~= first);
                assert(compress_blocks(st.0, Seq::<u8>::empty()) == st.0);
                lemma_compress_blocks_push(st.0, first, second);
                assert(self.buf@.take(blen + 1int) =~= pending_after);
            } else {
                assert(head =~= marked + zeros(56 - marked.len()));
                assert(fb =~= head + length_bytes(ml));
                lemma_compress_blocks_push(st.0, Seq::<u8>::empty(), fb);
                assert(Seq::<u8>::empty() + fb =~= fb);
                assert(compress_blocks(st.0, Seq::<u8>::empty()) == st.0);
                assert(self.buf@.take(blen + 1int) =~= pending_after);
            }
        }
        let mut out: Vec<char> = Vec::new();
        let mut wi: usize = 0;
        while wi < 5
            invariant
                self.h@.len() == 5,
                wi <= 5,
                out@ == words_hex_prefix(self.h@, wi as int),
            decreases 5 - wi,
        {
            let word = self.h[wi];
            let mut i: usize = 0;
            let ghost base = out@;
            while i < 8
                invariant
                    i <= 8,
                    out@ == base + word_hex(word).take(i as int),
                decreases 8 - i,
            {
                let shift = (28 - 4 * i) as u32;
                let d = (word >> shift) & 0xf;
                assert(d < 16) by (bit_vector)
                    requires d == (word >> shift) & 0xf;
                let c = if d < 10 { ((d as u8) + 48) as char } else { ((d as u8) + 87) as char };
                assert(c == hex_digit(d));
                out.push(c);
                assert(word_hex(word).take(i + 1) =~= word_hex(word).take(i as int).push(c));
                i = i + 1;
            }
            assert(word_hex(word).take(8) =~= word_hex(word));
            wi = wi + 1;
        }
        assert(out@ =~= words_hex(self.h@)) by {
            reveal_with_fuel(words_hex_prefix, 6);
        }
        string_from_chars(&out)
    }
}

/// Feeding bytes in two pieces is feeding them at once.
pub proof fn lemma_absorb_concat(st: (Seq<u32>, Seq<u8>, int), d1: Seq<u8>, d2: Seq<u8>)
    ensures
        absorb(absorb(st, d1), d2) == absorb(st, d1 + d2),
{
    let a = st.1 + d1;
    let n1 = (a.len() / 64 * 64) as int;
    let all2 = a.skip(n1) + d2;
    let n2 = (all2.len() / 64 * 64) as int;
    let all = st.1 + (d1 + d2);
    let n = (all.len() / 64 * 64) as int;
    assert(all =~= a + d2);
    assert(n == n1 + n2) by (nonlinear_arith)
        requires
            n1 == a.len() / 64 * 64,
            n2 == (a.len() - n1 + d2.len()) / 64 * 64,
            n == (a.len() + d2.len()) / 64 * 64,
            a.len() >= 0,
            d2.len() >= 0,
    {
        assert(a.len() - n1 == a.len() % 64);
    }
    assert(all.take(n) =~= a.take(n1) + all2.take(n2));
    assert(all.skip(n) =~= all2.skip(n2));
    assert(a.take(n1).len() % 64 == 0) by (nonlinear_arith)
        requires
            a.take(n1).len() == n1,
            n1 == a.len() / 64 * 64,
    ;
    lemma_compress_blocks_concat(st.0, a.take(n1), all2.take(n2));
}

/// The padded message is the whole blocks of the message followed by the
/// final block(s) built from its tail.
proof fn lemma_padded_split(msg: Seq<u8>)
    ensures
        ({
            let n = (msg.len() / 64 * 64) as int;
            padded(msg) == msg.take(n) + final_blocks(msg.skip(n), msg.len() as int)
        }),
{
    let n = (msg.len() / 64 * 64) as int;
    let r = msg.len() - n;
    assert(r == msg.len() % 64);
    let tail = msg.skip(n);
    let marked = tail + seq![0x80u8];
    let k = (55 - msg.len() as int) % 64;
    assert(k == (55 - r) % 64) by (nonlinear_arith)
        requires
            r == msg.len() % 64,
            k == (55 - msg.len() as int) % 64,
    ;
    let fb = final_blocks(tail, msg.len() as int);
    if marked.len() > 56 {
        assert(k == 119 - r);
        assert(zeros(64 - marked.len()) + zeros(56) =~= zeros(k));
        assert(fb =~= marked + zeros(k) + length_bytes((msg.len() * 8) as u64));
    } else {
        assert(k == 55 - r);
        assert(fb =~= marked + zeros(k) + length_bytes((msg.len() * 8) as u64));
    }
    assert(padded(msg) =~= msg.take(n) + fb);
}

/// A fresh hasher fed a message digests to the SHA-1 value of the message,
/// and can be asked for it (fewer than 64 bytes stay pending).
pub proof fn lemma_fresh_digest(msg: Seq<u8>)
    requires
        msg.len() * 8 <= u64::MAX,
    ensures
        ({
            let st = absorb((initial_words(), Seq::<u8>::empty(), 0int), msg);
            &&& digest_words(st) == sha1_words(msg)
            &&& st.1.len() < 64
            &&& st.2 + st.1.len() == msg.len()
        }),
{
    let n = (msg.len() / 64 * 64) as int;
    assert(Seq::<u8>::empty() + msg =~= msg);
    lemma_padded_split(msg);
    assert(msg.take(n).len() % 64 == 0) by (nonlinear_arith)
        requires
            msg.take(n).len() == n,
            n == msg.len() / 64 * 64,
    ;
    lemma_compress_blocks_concat(initial_words(), msg.take(n), final_blocks(msg.skip(n), msg.len() as int));
}

/// SHA-1 of a string's UTF-8 bytes, as 40 lowercase hex digits.
pub fn sha1_hash(input: &str) -> (r: String)
    requires
        input.spec_bytes().len() * 8 <= u64::MAX,
    ensures
        r@ == words_hex(sha1_words(input.spec_bytes())),
{
    let mut sha = Sha1::new();
    sha.update_str(input);
    proof {
        lemma_fresh_digest(input.spec_bytes());
    }
    sha.digest()
}

} // verus!
