//! Content digests.
use vstd::prelude::*;

verus! {

/// First bytes of a file hashed as a cheap pre-filter before a full-file hash.
pub const PREFIX_LEN: usize = 4096;

/// The BLAKE3 digest of some bytes.
pub uninterp spec fn blake3_digest(bytes: Seq<u8>) -> Seq<u8>;

/// Calls `blake3::hash`. The digest is 32 bytes long and depends on nothing but the
/// bytes that are hashed.
#[verifier::external_body]
fn blake3_hash(bytes: &[u8]) -> (r: [u8; 32])
    ensures
        r@ == blake3_digest(bytes@),
{
    *blake3::hash(bytes).as_bytes()
}

/// A hasher that takes its input piece by piece.
#[verifier::external_type_specification]
#[verifier::external_body]
pub struct ExHasher(blake3::Hasher);

/// What a hasher was fed so far: `None` where it hashes with a key, in a derivation context
/// or from an offset.
pub uninterp spec fn hasher_input(h: blake3::Hasher) -> Option<Seq<u8>>;

/// Calls `blake3::Hasher::new`: a hasher in the mode of `blake3::hash` that was fed
/// nothing.
#[verifier::external_body]
fn new_hasher() -> (r: blake3::Hasher)
    ensures
        hasher_input(r) == Some(Seq::<u8>::empty()),
{
    blake3::Hasher::new()
}

/// Calls `blake3::Hasher::update`: the bytes follow those that the hasher was fed before. It
/// has room for no more than 2^64 bytes.
#[verifier::external_body]
fn feed_hasher(h: blake3::Hasher, bytes: &[u8]) -> (r: blake3::Hasher)
    requires
        hasher_input(h) is Some,
        hasher_input(h)->0.len() + bytes@.len() <= u64::MAX,
    ensures
        hasher_input(r) == Some(hasher_input(h)->0 + bytes@),
{
    let mut h = h;
    h.update(bytes);
    h
}

/// Calls `blake3::Hasher::finalize`: what `blake3::hash` gives for all the bytes together.
#[verifier::external_body]
fn hasher_digest(h: &blake3::Hasher) -> (r: [u8; 32])
    requires
        hasher_input(*h) is Some,
    ensures
        r@ == blake3_digest(hasher_input(*h)->0),
{
    *h.finalize().as_bytes()
}

/// The digest of a file that is read piece by piece, so that it never has to be in memory
/// whole. Its view is what was read so far.
pub struct ContentHasher {
    hasher: blake3::Hasher,
}

impl View for ContentHasher {
    type V = Seq<u8>;

    closed spec fn view(&self) -> Seq<u8> {
        hasher_input(self.hasher)->0
    }
}

impl ContentHasher {
    #[verifier::type_invariant]
    closed spec fn wf(self) -> bool {
        hasher_input(self.hasher) is Some
    }

    /// Nothing was read yet.
    pub fn new() -> (r: ContentHasher)
        ensures
            r@ == Seq::<u8>::empty(),
    {
        ContentHasher { hasher: new_hasher() }
    }

    /// Takes the next piece.
    pub fn update(self, piece: &[u8]) -> (r: ContentHasher)
        requires
            self@.len() + piece@.len() <= u64::MAX,
        ensures
            r@ == self@ + piece@,
    {
        proof {
            use_type_invariant(&self);
        }
        ContentHasher { hasher: feed_hasher(self.hasher, piece) }
    }

    /// The digest of all that was read.
    pub fn digest(&self) -> (r: [u8; 32])
        ensures
            r@ == blake3_digest(self@),
    {
        proof {
            use_type_invariant(self);
        }
        hasher_digest(&self.hasher)
    }
}

/// The character of a hexadecimal digit.
pub open spec fn hex_digit(n: int) -> char {
    if n < 10 {
        (48 + n) as char
    } else {
        (87 + n) as char
    }
}

/// Bytes in lower-case hexadecimal notation, two characters each.
pub open spec fn hex(bytes: Seq<u8>) -> Seq<char> {
    Seq::new(
        2 * bytes.len(),
        |i: int|
            if i % 2 == 0 {
                hex_digit(bytes[i / 2] as int / 16)
            } else {
                hex_digit(bytes[i / 2] as int % 16)
            },
    )
}

fn push_hex_digit(out: &mut String, n: u8)
    requires
        n < 16,
    ensures
        final(out)@ == old(out)@.push(hex_digit(n as int)),
{
    let ghost was = out@;
    proof {
        reveal_strlit("0");
        reveal_strlit("1");
        reveal_strlit("2");
        reveal_strlit("3");
        reveal_strlit("4");
        reveal_strlit("5");
        reveal_strlit("6");
        reveal_strlit("7");
        reveal_strlit("8");
        reveal_strlit("9");
        reveal_strlit("a");
        reveal_strlit("b");
        reveal_strlit("c");
        reveal_strlit("d");
        reveal_strlit("e");
        reveal_strlit("f");
    }
    let s: &str = match n {
        0 => "0",
        1 => "1",
        2 => "2",
        3 => "3",
        4 => "4",
        5 => "5",
        6 => "6",
        7 => "7",
        8 => "8",
        9 => "9",
        10 => "a",
        11 => "b",
        12 => "c",
        13 => "d",
        14 => "e",
        _ => "f",
    };
    assert(s@ =~= seq![hex_digit(n as int)]);
    out.append(s);
    assert(out@ =~= was.push(hex_digit(n as int)));
}

/// The first `n` bytes of a digest in lower-case hexadecimal notation.
fn hex_of(digest: &[u8; 32], n: usize) -> (r: String)
    requires
        n <= 32,
    ensures
        r@ == hex(digest@.take(n as int)),
{
    let mut out = String::new();
    let mut i: usize = 0;
    assert(out@ =~= hex(digest@.take(0)));
    while i < n
        invariant
            i <= n <= 32,
            out@ == hex(digest@.take(i as int)),
        decreases n - i,
    {
        let ghost was = out@;
        let b: u8 = digest[i];
        push_hex_digit(&mut out, b / 16);
        push_hex_digit(&mut out, b % 16);
        i += 1;
        proof {
            let now = hex(digest@.take(i as int));
            assert forall|j: int| 0 <= j < now.len() implies out@[j] == now[j] by {
                if j < was.len() {
                    assert(was[j] == hex(digest@.take(i - 1))[j]);
                    assert(digest@.take(i as int)[j / 2] == digest@.take(i - 1)[j / 2]);
                }
            }
            assert(out@ =~= now);
        }
    }
    out
}

/// A digest in lower-case hexadecimal notation.
pub fn to_hex(digest: &[u8; 32]) -> (r: String)
    ensures
        r@ == hex(digest@),
{
    let r = hex_of(digest, 32);
    assert(digest@.take(32) =~= digest@);
    r
}

/// The digest of the first [`PREFIX_LEN`] bytes of a file. `head` is what reading that
/// many bytes gave: fewer where the file is shorter.
pub fn hash_prefix(head: &Vec<u8>) -> (r: [u8; 32])
    ensures
        r@ == blake3_digest(crate::report::at_most(head@, PREFIX_LEN as nat)),
{
    if head.len() <= PREFIX_LEN {
        blake3_hash(head.as_slice())
    } else {
        let head = vstd::slice::slice_subrange(head.as_slice(), 0, PREFIX_LEN);
        blake3_hash(head)
    }
}

/// The first 16 hexadecimal characters of a digest.
pub fn short_key(digest: &[u8; 32]) -> (r: String)
    ensures
        r@ == hex(digest@).take(16),
        r@.len() == 16,
{
    let r = hex_of(digest, 8);
    proof {
        assert forall|j: int| 0 <= j < 16 implies r@[j] == hex(digest@)[j] by {
            assert(digest@.take(8)[j / 2] == digest@[j / 2]);
        }
        assert(r@ =~= hex(digest@).take(16));
    }
    r
}

/// The digest of a text.
pub fn hash_text(text: &str) -> (r: [u8; 32])
    ensures
        r@ == blake3_digest(vstd::utf8::encode_utf8(text@)),
{
    blake3_hash(text.as_bytes())
}

/// Digests that are written the same are the same.
pub proof fn law_hex_is_unique(a: Seq<u8>, b: Seq<u8>)
    requires
        hex(a) == hex(b),
    ensures
        a == b,
{
    assert(hex(a).len() == 2 * a.len());
    assert(hex(b).len() == 2 * b.len());
    assert forall|i: int| 0 <= i < a.len() implies a[i] == b[i] by {
        assert(hex(a)[2 * i] == hex(b)[2 * i]);
        assert(hex(a)[2 * i + 1] == hex(b)[2 * i + 1]);
        assert((2 * i) / 2 == i && (2 * i + 1) / 2 == i);
        assert((2 * i) % 2 == 0 && (2 * i + 1) % 2 == 1);
        assert(hex(a)[2 * i] == hex_digit(a[i] as int / 16));
        assert(hex(b)[2 * i] == hex_digit(b[i] as int / 16));
        assert(hex(a)[2 * i + 1] == hex_digit(a[i] as int % 16));
        assert(hex(b)[2 * i + 1] == hex_digit(b[i] as int % 16));
        lemma_hex_digit(a[i] as int / 16, b[i] as int / 16);
        lemma_hex_digit(a[i] as int % 16, b[i] as int % 16);
    }
    assert(a =~= b);
}

proof fn lemma_hex_digit(a: int, b: int)
    requires
        0 <= a < 16,
        0 <= b < 16,
        hex_digit(a) == hex_digit(b),
    ensures
        a == b,
{
}

/// Every character of a hexadecimal text is a lower-case hexadecimal digit, so that
/// keys are safe as file names.
pub proof fn law_hex_is_hexadecimal(bytes: Seq<u8>, i: int)
    requires
        0 <= i < hex(bytes).len(),
    ensures
        '0' <= hex(bytes)[i] <= '9' || 'a' <= hex(bytes)[i] <= 'f',
{
    assert(0 <= bytes[i / 2] as int / 16 < 16);
    assert(0 <= bytes[i / 2] as int % 16 < 16);
}

} // verus!
