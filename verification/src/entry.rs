use vstd::prelude::*;
use vstd::string::StringSliceAdditionalSpecFns;
use sha2::Digest;

verus! {

/// The SHA-256 digest that the sha2 crate computes for `data`.
pub uninterp spec fn sha256(data: Seq<u8>) -> Seq<u8>;

/// Hashes `data` with `sha2::Sha256` (`new`, `update`, `finalize`). The
/// contract claims that the digest depends on the data alone and is 32 bytes
/// long, as the crate's output size `U32` fixes.
#[verifier::external_body]
fn sha256_digest(data: &[u8]) -> (r: Vec<u8>)
    ensures
        r@ == sha256(data@),
        r@.len() == 32,
{
    let mut hasher = sha2::Sha256::new();
    hasher.update(data);
    hasher.finalize().to_vec()
}

/// Appends one character with `String::push`.
#[verifier::external_body]
fn push_char(s: &mut String, c: char)
    ensures
        final(s)@ == old(s)@.push(c),
{
    s.push(c);
}

/// Lowercase hexadecimal digit of a nibble.
pub open spec fn hex_digit(n: u8) -> char {
    if n < 10 {
        (n + 48) as char
    } else {
        (n + 87) as char
    }
}

/// Whether `c` is one of `0-9a-f`.
pub open spec fn is_lower_hex(c: char) -> bool {
    ('0' <= c && c <= '9') || ('a' <= c && c <= 'f')
}

/// Two lowercase hex digits per byte, high nibble first.
pub open spec fn hex_of(bytes: Seq<u8>) -> Seq<char>
    decreases bytes.len(),
{
    if bytes.len() == 0 {
        Seq::empty()
    } else {
        hex_of(bytes.drop_last()) + seq![
            hex_digit(bytes.last() / 16),
            hex_digit(bytes.last() % 16),
        ]
    }
}

/// The content hash of a text: the hex form of the SHA-256 digest of its
/// UTF-8 bytes.
pub open spec fn content_hash_spec(text: Seq<u8>) -> Seq<char> {
    hex_of(sha256(text))
}

/// Each byte becomes two characters, and every character is a hex digit.
pub proof fn lemma_hex_shape(bytes: Seq<u8>)
    ensures
        hex_of(bytes).len() == 2 * bytes.len(),
        forall|i: int| 0 <= i < hex_of(bytes).len() ==> is_lower_hex(#[trigger] hex_of(bytes)[i]),
    decreases bytes.len(),
{
    if bytes.len() > 0 {
        lemma_hex_shape(bytes.drop_last());
        let b = bytes.last();
        assert(b / 16 < 16);
        assert(b % 16 < 16);
    }
}

/// The hex form determines the bytes: distinct byte strings never share it.
pub proof fn lemma_hex_injective(a: Seq<u8>, b: Seq<u8>)
    requires
        hex_of(a) == hex_of(b),
    ensures
        a == b,
    decreases a.len(),
{
    lemma_hex_shape(a);
    lemma_hex_shape(b);
    if a.len() > 0 {
        let ha = hex_of(a.drop_last());
        let hb = hex_of(b.drop_last());
        lemma_hex_shape(a.drop_last());
        lemma_hex_shape(b.drop_last());
        let n: int = ha.len() as int;
        assert(hex_of(a)[n] == hex_of(b)[n]);
        assert(hex_of(a)[n + 1] == hex_of(b)[n + 1]);
        let x = a.last();
        let y = b.last();
        assert(a.len() == b.len());
        assert(hex_of(a) == ha + seq![hex_digit(x / 16), hex_digit(x % 16)]);
        assert(hex_of(b) == hb + seq![hex_digit(y / 16), hex_digit(y % 16)]);
        assert(hb.len() == n);
        assert(hex_of(a)[n] == hex_digit(x / 16));
        assert(hex_of(b)[n] == hex_digit(y / 16));
        assert(hex_of(a)[n + 1] == hex_digit(x % 16));
        assert(hex_of(b)[n + 1] == hex_digit(y % 16));
        assert(hex_digit(x / 16) == hex_digit(y / 16));
        assert(hex_digit(x % 16) == hex_digit(y % 16));
        assert(x / 16 == y / 16);
        assert(x % 16 == y % 16);
        assert(x == y);
        assert(ha =~= hex_of(a).subrange(0, n));
        assert(hb =~= hex_of(b).subrange(0, n));
        lemma_hex_injective(a.drop_last(), b.drop_last());
        assert(a =~= a.drop_last().push(x));
        assert(b =~= b.drop_last().push(y));
    }
}

fn hex_digit_of(n: u8) -> (c: char)
    requires
        n < 16,
    ensures
        c == hex_digit(n),
{
    if n < 10 {
        (n + 48) as char
    } else {
        (n + 87) as char
    }
}

/// Lowercase hex encoding, two digits per byte.
pub fn hex_encode(bytes: &[u8]) -> (s: String)
    ensures
        s@ == hex_of(bytes@),
{
    let mut s = String::new();
    let mut i: usize = 0;
    while i < bytes.len()
        invariant
            i <= bytes@.len(),
            s@ == hex_of(bytes@.subrange(0, i as int)),
        decreases bytes@.len() - i,
    {
        let b = bytes[i];
        push_char(&mut s, hex_digit_of(b / 16));
        push_char(&mut s, hex_digit_of(b % 16));
        proof {
            let next = bytes@.subrange(0, i + 1);
            assert(next.drop_last() =~= bytes@.subrange(0, i as int));
            assert(next.last() == b);
        }
        i = i + 1;
    }
    assert(bytes@.subrange(0, bytes@.len() as int) =~= bytes@);
    s
}

/// The SHA-256 content hash of `content`, as 64 lowercase hex digits.
pub fn content_hash_of(content: &str) -> (h: String)
    ensures
        h@ == content_hash_spec(content.spec_bytes()),
        h@.len() == 64,
        forall|i: int| 0 <= i < h@.len() ==> is_lower_hex(#[trigger] h@[i]),
{
    let digest = sha256_digest(content.as_bytes());
    let h = hex_encode(digest.as_slice());
    proof {
        lemma_hex_shape(digest@);
    }
    h
}

/// Equal contents hash alike; equal hashes come from equal digests.
pub proof fn lemma_content_hash_digest(a: Seq<u8>, b: Seq<u8>)
    ensures
        a == b ==> content_hash_spec(a) == content_hash_spec(b),
        content_hash_spec(a) == content_hash_spec(b) ==> sha256(a) == sha256(b),
{
    if content_hash_spec(a) == content_hash_spec(b) {
        lemma_hex_injective(sha256(a), sha256(b));
    }
}

} // verus!
