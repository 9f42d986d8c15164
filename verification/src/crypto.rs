//! HMAC-MD5: the MD5 message digest (RFC 1321) keyed as RFC 2104 describes.
use vstd::prelude::*;

use crate::bytes;
use crate::number;

verus! {

/// The state of a digest: four words.
pub type State = (u32, u32, u32, u32);

/// The additive constants: the integer parts of 2^32 times the sines of 1 to 64.
pub const SINES: [u32; 64] = [
    0xd76aa478, 0xe8c7b756, 0x242070db, 0xc1bdceee, 0xf57c0faf, 0x4787c62a,
    0xa8304613, 0xfd469501, 0x698098d8, 0x8b44f7af, 0xffff5bb1, 0x895cd7be,
    0x6b901122, 0xfd987193, 0xa679438e, 0x49b40821, 0xf61e2562, 0xc040b340,
    0x265e5a51, 0xe9b6c7aa, 0xd62f105d, 0x02441453, 0xd8a1e681, 0xe7d3fbc8,
    0x21e1cde6, 0xc33707d6, 0xf4d50d87, 0x455a14ed, 0xa9e3e905, 0xfcefa3f8,
    0x676f02d9, 0x8d2a4c8a, 0xfffa3942, 0x8771f681, 0x6d9d6122, 0xfde5380c,
    0xa4beea44, 0x4bdecfa9, 0xf6bb4b60, 0xbebfbc70, 0x289b7ec6, 0xeaa127fa,
    0xd4ef3085, 0x04881d05, 0xd9d4d039, 0xe6db99e5, 0x1fa27cf8, 0xc4ac5665,
    0xf4292244, 0x432aff97, 0xab9423a7, 0xfc93a039, 0x655b59c3, 0x8f0ccc92,
    0xffeff47d, 0x85845dd1, 0x6fa87e4f, 0xfe2ce6e0, 0xa3014314, 0x4e0811a1,
    0xf7537e82, 0xbd3af235, 0x2ad7d2bb, 0xeb86d391,
];

/// The rotation of each step: four amounts per round, used in turn.
pub const ROTATIONS: [u32; 16] = [7, 12, 17, 22, 5, 9, 14, 20, 4, 11, 16, 23, 6, 10, 15, 21];

/// `x` rotated to the left by `n` bits.
pub open spec fn rotated(x: u32, n: u32) -> u32 {
    (x << n) | (x >> ((32 - n) as u32))
}

/// The round function of step `i`.
pub open spec fn mixed(i: int, b: u32, c: u32, d: u32) -> u32 {
    if i < 16 {
        (b & c) | (!b & d)
    } else if i < 32 {
        (d & b) | (!d & c)
    } else if i < 48 {
        b ^ c ^ d
    } else {
        c ^ (b | !d)
    }
}

/// Which word of the block step `i` takes.
pub open spec fn word_of_step(i: int) -> int {
    if i < 16 {
        i
    } else if i < 32 {
        (5 * i + 1) % 16
    } else if i < 48 {
        (3 * i + 5) % 16
    } else {
        (7 * i) % 16
    }
}

/// The word at place `i` of a block, least significant byte first.
pub open spec fn block_word(block: Seq<u8>, i: int) -> u32 {
    (block[4 * i] + block[4 * i + 1] * 256 + block[4 * i + 2] * 65536 + block[4 * i + 3]
        * 16777216) as u32
}

/// Step `i` of the 64 steps over a block.
pub open spec fn stepped(block: Seq<u8>, i: int, s: State) -> State {
    let (a, b, c, d) = s;
    let sum = a.wrapping_add(mixed(i, b, c, d)).wrapping_add(SINES@[i]).wrapping_add(
        block_word(block, word_of_step(i)),
    );
    (d, b.wrapping_add(rotated(sum, ROTATIONS@[i / 16 * 4 + i % 4])), b, c)
}

/// The first `n` steps over a block.
pub open spec fn steps(block: Seq<u8>, n: nat, s: State) -> State
    decreases n,
{
    if n == 0 {
        s
    } else {
        stepped(block, n - 1, steps(block, (n - 1) as nat, s))
    }
}

/// The state after a block.
pub open spec fn compressed(block: Seq<u8>, s: State) -> State {
    let t = steps(block, 64, s);
    (
        s.0.wrapping_add(t.0),
        s.1.wrapping_add(t.1),
        s.2.wrapping_add(t.2),
        s.3.wrapping_add(t.3),
    )
}

/// The state after the first `n` blocks of a padded message.
pub open spec fn absorbed(message: Seq<u8>, n: nat) -> State
    decreases n,
{
    if n == 0 {
        (0x67452301, 0xefcdab89, 0x98badcfe, 0x10325476)
    } else {
        compressed(
            message.subrange(64 * (n - 1), 64 * n as int),
            absorbed(message, (n - 1) as nat),
        )
    }
}

/// How many zero bytes follow the first byte of the padding.
pub open spec fn zeros_after(len: nat) -> nat {
    ((119 - len % 64) % 64) as nat
}

/// So many zero bytes.
pub open spec fn zeros(n: nat) -> Seq<u8> {
    Seq::new(n, |i: int| 0u8)
}

/// A message with its padding: a one bit, zeros, and the length in bits.
pub open spec fn padded(message: Seq<u8>) -> Seq<u8> {
    let bits = message.len() * 8;
    message + seq![0x80u8] + zeros(zeros_after(message.len())) + bytes::le32(
        (bits % 0x1_0000_0000) as u32,
    ) + bytes::le32((bits / 0x1_0000_0000 % 0x1_0000_0000) as u32)
}

/// The MD5 digest of a message.
pub open spec fn md5_of(message: Seq<u8>) -> Seq<u8> {
    let p = padded(message);
    let s = absorbed(p, p.len() / 64);
    bytes::le32(s.0) + bytes::le32(s.1) + bytes::le32(s.2) + bytes::le32(s.3)
}

/// A key as one block: its digest where it is longer, then zeros.
pub open spec fn key_block(key: Seq<u8>) -> Seq<u8> {
    let short = if key.len() > 64 {
        md5_of(key)
    } else {
        key
    };
    short + zeros((64 - short.len()) as nat)
}

/// A block with every byte combined with `pad`.
pub open spec fn xored(block: Seq<u8>, pad: u8) -> Seq<u8> {
    block.map_values(|b: u8| b ^ pad)
}

/// The HMAC-MD5 code of a message under a key.
pub open spec fn hmac_md5_of(key: Seq<u8>, message: Seq<u8>) -> Seq<u8> {
    md5_of(
        xored(key_block(key), 0x5c) + md5_of(xored(key_block(key), 0x36) + message),
    )
}

fn rotate(x: u32, n: u32) -> (r: u32)
    requires
        0 < n < 32,
    ensures
        r == rotated(x, n),
{
    (x << n) | (x >> (32 - n))
}

fn step_of(block: &[u8], i: usize, s: State) -> (r: State)
    requires
        block@.len() == 64,
        i < 64,
    ensures
        r == stepped(block@, i as int, s),
{
    let (a, b, c, d) = s;
    let (f, g): (u32, usize) = if i < 16 {
        ((b & c) | (!b & d), i)
    } else if i < 32 {
        ((d & b) | (!d & c), (5 * i + 1) % 16)
    } else if i < 48 {
        (b ^ c ^ d, (3 * i + 5) % 16)
    } else {
        (c ^ (b | !d), (7 * i) % 16)
    };
    let word: u32 = block[4 * g] as u32 + block[4 * g + 1] as u32 * 256 + block[4 * g + 2] as u32
        * 65536 + block[4 * g + 3] as u32 * 16777216;
    let sum = a.wrapping_add(f).wrapping_add(SINES[i]).wrapping_add(word);
    let at: usize = i / 16 * 4 + i % 4;
    let n: u32 = ROTATIONS[at];
    (d, b.wrapping_add(rotate(sum, n)), b, c)
}

fn compress(block: &[u8], s: State) -> (r: State)
    requires
        block@.len() == 64,
    ensures
        r == compressed(block@, s),
{
    let mut t = s;
    let mut i: usize = 0;
    while i < 64
        invariant
            block@.len() == 64,
            i <= 64,
            t == steps(block@, i as nat, s),
        decreases 64 - i,
    {
        t = step_of(block, i, t);
        i += 1;
    }
    (
        s.0.wrapping_add(t.0),
        s.1.wrapping_add(t.1),
        s.2.wrapping_add(t.2),
        s.3.wrapping_add(t.3),
    )
}

proof fn lemma_padded_len(len: nat)
    ensures
        (len + 1 + zeros_after(len) + 8) % 64 == 0,
{
    let r = len % 64;
    if r <= 55 {
        assert(zeros_after(len) == 55 - r);
    } else {
        assert(zeros_after(len) == 119 - r);
    }
}

fn pad(message: &[u8]) -> (r: Vec<u8>)
    ensures
        r@ == padded(message@),
        r@.len() % 64 == 0,
{
    let mut out: Vec<u8> = Vec::new();
    bytes::append_bytes(&mut out, message);
    out.push(0x80);
    let count: usize = (119 - message.len() % 64) % 64;
    let ghost head = message@ + seq![0x80u8];
    assert(out@ =~= head + zeros(0));
    let mut i: usize = 0;
    while i < count
        invariant
            i <= count,
            out@ == head + zeros(i as nat),
        decreases count - i,
    {
        out.push(0);
        i += 1;
        assert(out@ =~= head + zeros(i as nat));
    }
    let bits: u128 = message.len() as u128 * 8;
    bytes::push_le32(&mut out, (bits % 0x1_0000_0000) as u32);
    bytes::push_le32(&mut out, (bits / 0x1_0000_0000 % 0x1_0000_0000) as u32);
    proof {
        lemma_padded_len(message@.len());
    }
    out
}

/// Computes the MD5 digest of a message.
pub fn md5(message: &[u8]) -> (r: Vec<u8>)
    ensures
        r@ == md5_of(message@),
        r@.len() == 16,
{
    let p = pad(message);
    let mut s: State = (0x67452301, 0xefcdab89, 0x98badcfe, 0x10325476);
    let blocks: usize = p.len() / 64;
    let mut i: usize = 0;
    while i < blocks
        invariant
            i <= blocks,
            blocks == p@.len() / 64,
            p@.len() <= usize::MAX,
            s == absorbed(p@, i as nat),
        decreases blocks - i,
    {
        let block = vstd::slice::slice_subrange(p.as_slice(), i * 64, i * 64 + 64);
        s = compress(block, s);
        i += 1;
        assert(block@ == p@.subrange(64 * (i - 1), 64 * i as int));
    }
    let mut out: Vec<u8> = Vec::new();
    bytes::push_le32(&mut out, s.0);
    bytes::push_le32(&mut out, s.1);
    bytes::push_le32(&mut out, s.2);
    bytes::push_le32(&mut out, s.3);
    assert(out@ =~= md5_of(message@));
    out
}

fn expand_key(key: &[u8]) -> (r: Vec<u8>)
    ensures
        r@ == key_block(key@),
        r@.len() == 64,
{
    let mut out: Vec<u8> = Vec::new();
    if key.len() > 64 {
        let digest = md5(key);
        bytes::append_bytes(&mut out, digest.as_slice());
    } else {
        bytes::append_bytes(&mut out, key);
    }
    let ghost short = out@;
    assert(short == if key@.len() > 64 {
        md5_of(key@)
    } else {
        key@
    });
    assert(out@ =~= short + zeros(0));
    while out.len() < 64
        invariant
            short.len() <= out@.len() <= 64,
            out@ == short + zeros((out@.len() - short.len()) as nat),
        decreases 64 - out@.len(),
    {
        out.push(0);
        assert(out@ =~= short + zeros((out@.len() - short.len()) as nat));
    }
    out
}

fn xor(block: &[u8], with: u8) -> (r: Vec<u8>)
    ensures
        r@ == xored(block@, with),
{
    let mut out: Vec<u8> = Vec::new();
    let mut i: usize = 0;
    while i < block.len()
        invariant
            i <= block@.len(),
            out@ == xored(block@, with).take(i as int),
        decreases block@.len() - i,
    {
        out.push(block[i] ^ with);
        i += 1;
        assert(out@ =~= xored(block@, with).take(i as int));
    }
    assert(out@ =~= xored(block@, with));
    out
}

/// Computes the HMAC-MD5 code of a message, as 32 lower-case hexadecimal digits.
pub fn hmac_md5_hex(key: &[u8], message: &[u8]) -> (r: String)
    ensures
        r@ == number::hex_bytes(hmac_md5_of(key@, message@)),
{
    let block = expand_key(key);
    let mut inner = xor(block.as_slice(), 0x36);
    bytes::append_bytes(&mut inner, message);
    let inner_digest = md5(inner.as_slice());
    let mut outer = xor(block.as_slice(), 0x5c);
    bytes::append_bytes(&mut outer, inner_digest.as_slice());
    let code = md5(outer.as_slice());
    number::to_hex(code.as_slice())
}

/// The code is always 32 characters, each a lower-case hexadecimal digit.
pub proof fn codes_are_hexadecimal_digits(key: Seq<u8>, message: Seq<u8>)
    ensures
        number::hex_bytes(hmac_md5_of(key, message)).len() == 32,
        forall|i: int|
            0 <= i < 32 ==> {
                let c = #[trigger] number::hex_bytes(hmac_md5_of(key, message))[i];
                '0' <= c <= '9' || 'a' <= c <= 'f'
            },
{
    lemma_hex_bytes(hmac_md5_of(key, message));
}

proof fn lemma_hex_bytes(s: Seq<u8>)
    ensures
        number::hex_bytes(s).len() == 2 * s.len(),
        forall|i: int|
            0 <= i < 2 * s.len() ==> {
                let c = #[trigger] number::hex_bytes(s)[i];
                '0' <= c <= '9' || 'a' <= c <= 'f'
            },
    decreases s.len(),
{
    if s.len() > 0 {
        lemma_hex_bytes(s.drop_last());
    }
}

/// A message is padded to whole blocks of 64 bytes: with one byte of which the first
/// bit alone is set, as few zeros as can be, and its length in bits as eight bytes,
/// least significant first.
pub proof fn messages_are_padded_to_blocks(m: Seq<u8>)
    requires
        m.len() < 0x2000_0000_0000_0000,
    ensures
        ({
            let p = padded(m);
            let n = p.len();
            &&& n % 64 == 0
            &&& m.len() + 9 <= n < m.len() + 73
            &&& p.take(m.len() as int) == m
            &&& p[m.len() as int] == 128
            &&& forall|i: int| m.len() < i < n - 8 ==> p[i] == 0
            &&& p[n - 8] + p[n - 7] * 0x100 + p[n - 6] * 0x1_0000 + p[n - 5] * 0x100_0000 + (p[n
                - 4] + p[n - 3] * 0x100 + p[n - 2] * 0x1_0000 + p[n - 1] * 0x100_0000)
                * 0x1_0000_0000 == 8 * m.len()
        }),
{
    let p = padded(m);
    let n = p.len();
    let bits = m.len() * 8;
    let low = (bits % 0x1_0000_0000) as u32;
    let high = (bits / 0x1_0000_0000 % 0x1_0000_0000) as u32;
    let k = zeros_after(m.len());
    let front = m + seq![0x80u8] + zeros(k);
    lemma_le32(low);
    lemma_le32(high);
    lemma_padded_length(m.len());
    assert(p == front + bytes::le32(low) + bytes::le32(high));
    lemma_parts_of_three(front, bytes::le32(low), bytes::le32(high));
    assert(p.take(m.len() as int) =~= m);
    assert(p[m.len() as int] == front[m.len() as int]);
    assert forall|i: int| m.len() < i < n - 8 implies p[i] == 0 by {
        assert(p[i] == front[i]);
    }
    assert(high * 0x1_0000_0000 + low == bits);
}

proof fn lemma_padded_length(len: nat)
    ensures
        (len + 1 + zeros_after(len) + 8) % 64 == 0,
        zeros_after(len) < 64,
{
}

proof fn lemma_parts_of_three(a: Seq<u8>, b: Seq<u8>, c: Seq<u8>)
    requires
        b.len() == 4,
        c.len() == 4,
    ensures
        ({
            let p = a + b + c;
            let n = p.len();
            &&& n == a.len() + 8
            &&& forall|i: int| 0 <= i < a.len() ==> p[i] == a[i]
            &&& p[n - 8] == b[0] && p[n - 7] == b[1] && p[n - 6] == b[2] && p[n - 5] == b[3]
            &&& p[n - 4] == c[0] && p[n - 3] == c[1] && p[n - 2] == c[2] && p[n - 1] == c[3]
        }),
{
}

proof fn lemma_le32(n: u32)
    ensures
        ({
            let b = bytes::le32(n);
            &&& b.len() == 4
            &&& b[0] + b[1] * 0x100 + b[2] * 0x1_0000 + b[3] * 0x100_0000 == n
        }),
{
}

/// A digest has 16 bytes: the four words of the state after all blocks, least
/// significant byte first.
pub proof fn digests_are_the_last_state(m: Seq<u8>, i: int)
    requires
        0 <= i < 4,
    ensures
        ({
            let d = md5_of(m);
            let s = absorbed(padded(m), padded(m).len() / 64);
            let word = if i == 0 {
                s.0
            } else if i == 1 {
                s.1
            } else if i == 2 {
                s.2
            } else {
                s.3
            };
            &&& d.len() == 16
            &&& d[4 * i] + d[4 * i + 1] * 0x100 + d[4 * i + 2] * 0x1_0000 + d[4 * i + 3]
                * 0x100_0000 == word
        }),
{
    let s = absorbed(padded(m), padded(m).len() / 64);
    lemma_le32(s.0);
    lemma_le32(s.1);
    lemma_le32(s.2);
    lemma_le32(s.3);
}

/// Blocks are taken in one after the other: the state after so many blocks depends on
/// these blocks alone, and the next one is mixed into it.
pub proof fn blocks_are_taken_in_order(a: Seq<u8>, b: Seq<u8>, n: nat)
    requires
        64 * n <= a.len(),
    ensures
        absorbed(a + b, n) == absorbed(a, n),
        64 * n == a.len() && b.len() >= 64 ==> absorbed(a + b, n + 1) == compressed(
            b.take(64),
            absorbed(a, n),
        ),
    decreases n,
{
    if n > 0 {
        blocks_are_taken_in_order(a, b, (n - 1) as nat);
        assert((a + b).subrange(64 * (n - 1), 64 * n as int) =~= a.subrange(
            64 * (n - 1),
            64 * n as int,
        ));
    }
    if 64 * n == a.len() && b.len() >= 64 {
        let more = (n + 1) as nat;
        let block = (a + b).subrange(64 * (more - 1), 64 * more as int);
        assert(block =~= b.take(64));
        assert(absorbed(a + b, more) == compressed(block, absorbed(a + b, (more - 1) as nat)));
    }
}

/// The state to start with is that of the digest's definition.
pub proof fn the_first_state_is_fixed(m: Seq<u8>)
    ensures
        absorbed(m, 0) == (0x67452301u32, 0xefcdab89u32, 0x98badcfeu32, 0x10325476u32),
{
}

/// Step by step, a block of 16 words changes the state: the words go round by one
/// place, and the new one is made of the old ones, of a constant, and of one word of
/// the block, which each of the four rounds takes in its own order; each word is
/// taken once in every round.
pub proof fn steps_take_each_word_once_a_round(round: int, w: int)
    requires
        0 <= round < 4,
        0 <= w < 16,
    ensures
        exists|i: int|
            16 * round <= i < 16 * round + 16 && #[trigger] word_of_step(i) == w,
        forall|i: int, j: int|
            16 * round <= i < 16 * round + 16 && 16 * round <= j < 16 * round + 16 && i != j ==> (
            #[trigger] word_of_step(i)) != (#[trigger] word_of_step(j)),
{
    let i = if round == 0 {
        w
    } else if round == 1 {
        16 + (13 * (w + 15)) % 16
    } else if round == 2 {
        32 + (11 * (w + 11)) % 16
    } else {
        48 + (7 * w) % 16
    };
    assert(word_of_step(i) == w);
}

/// A key longer than a block stands for its digest; one that is shorter, for itself
/// with zeros behind it: zeros at its end make no difference.
pub proof fn keys_stand_for_blocks(key: Seq<u8>, n: nat, message: Seq<u8>)
    ensures
        key.len() > 64 ==> hmac_md5_of(key, message) == hmac_md5_of(md5_of(key), message),
        key.len() + n <= 64 ==> hmac_md5_of(key + Seq::new(n, |i: int| 0u8), message)
            == hmac_md5_of(key, message),
{
    digests_are_the_last_state(key, 0);
    if key.len() > 64 {
        assert(key_block(key) =~= key_block(md5_of(key)));
    }
    if key.len() + n <= 64 {
        assert(key_block(key + Seq::new(n, |i: int| 0u8)) =~= key_block(key));
    }
}

/// A code is made of two digests: of the key, combined with 0x36, and the message;
/// and of the key, combined with 0x5c, and the first digest.
pub proof fn codes_are_digests_of_digests(key: Seq<u8>, message: Seq<u8>)
    requires
        key.len() == 64,
    ensures
        hmac_md5_of(key, message) == md5_of(
            Seq::new(64, |i: int| key[i] ^ 0x5cu8) + md5_of(
                Seq::new(64, |i: int| key[i] ^ 0x36u8) + message,
            ),
        ),
{
    assert(key_block(key) =~= key);
    assert(xored(key, 0x5c) =~= Seq::new(64, |i: int| key[i] ^ 0x5cu8));
    assert(xored(key, 0x36) =~= Seq::new(64, |i: int| key[i] ^ 0x36u8));
}

/// Each of the 64 steps moves the words of the state on by one place, and makes one new
/// word: the sum of the first word, of the round function of the other three, of the
/// constant of the step and of a word of the block, rotated, and added to the second.
pub proof fn steps_make_one_new_word(block: Seq<u8>, i: int, s: State)
    requires
        0 <= i < 64,
        block.len() == 64,
    ensures
        ({
            let t = stepped(block, i, s);
            let f = if i < 16 {
                (s.1 & s.2) | (!s.1 & s.3)
            } else if i < 32 {
                (s.3 & s.1) | (!s.3 & s.2)
            } else if i < 48 {
                s.1 ^ s.2 ^ s.3
            } else {
                s.2 ^ (s.1 | !s.3)
            };
            let w = 4 * word_of_step(i);
            let sum = (s.0 + f + SINES@[i] + (block[w] + block[w + 1] * 0x100 + block[w + 2]
                * 0x1_0000 + block[w + 3] * 0x100_0000)) % 0x1_0000_0000;
            &&& t.0 == s.3 && t.2 == s.1 && t.3 == s.2
            &&& t.1 == (s.1 + rotated(sum as u32, ROTATIONS@[i / 16 * 4 + i % 4])) % 0x1_0000_0000
        }),
{
}

/// A block is mixed into the state in 64 steps, and the result added to the state
/// before, word by word.
pub proof fn blocks_are_mixed_in_64_steps(block: Seq<u8>, s: State, n: nat)
    ensures
        ({
            let t = steps(block, 64, s);
            let r = compressed(block, s);
            &&& r.0 == (s.0 + t.0) % 0x1_0000_0000 && r.1 == (s.1 + t.1) % 0x1_0000_0000
            &&& r.2 == (s.2 + t.2) % 0x1_0000_0000 && r.3 == (s.3 + t.3) % 0x1_0000_0000
            &&& steps(block, 0, s) == s
            &&& steps(block, n + 1, s) == stepped(block, n as int, steps(block, n, s))
        }),
{
}

} // verus!
