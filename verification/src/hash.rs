//! Content hashing of canonicalized migration text.
//!
//! A migration's stored hash is the SHA-256 digest of its canonical form,
//! rendered as upper-case hexadecimal. The digest itself comes from the
//! `sha2` crate; the hex rendering and everything around the call is
//! verified.

use vstd::prelude::*;
use crate::canon::{canon, canonicalize, comment_start, last_line, lemma_comment_append_line,
    lemma_kept_append_last};
use sha2::Digest;

verus! {

/// What SHA-256 returns for the UTF-8 encoding of the given characters: a
/// function of the characters alone.
pub uninterp spec fn sha256_of(s: Seq<char>) -> Seq<u8>;

/// Relies on sha2::Sha256 through the `Digest` interface: the digest is a
/// function of the hashed bytes alone and is 32 bytes long.
#[verifier::external_body]
fn sha256_digest(s: &str) -> (r: Vec<u8>)
    ensures
        r@ == sha256_of(s@),
        r@.len() == 32,
{
    sha2::Sha256::digest(s.as_bytes()).to_vec()
}

/// The upper-case hexadecimal digit for a value below sixteen.
pub open spec fn hex_digit(n: int) -> char {
    if n == 0 {
        '0'
    } else if n == 1 {
        '1'
    } else if n == 2 {
        '2'
    } else if n == 3 {
        '3'
    } else if n == 4 {
        '4'
    } else if n == 5 {
        '5'
    } else if n == 6 {
        '6'
    } else if n == 7 {
        '7'
    } else if n == 8 {
        '8'
    } else if n == 9 {
        '9'
    } else if n == 10 {
        'A'
    } else if n == 11 {
        'B'
    } else if n == 12 {
        'C'
    } else if n == 13 {
        'D'
    } else if n == 14 {
        'E'
    } else {
        'F'
    }
}

/// The upper-case hexadecimal rendering of a byte string, two digits per
/// byte.
pub open spec fn hex_upper(bs: Seq<u8>) -> Seq<char>
    decreases bs.len(),
{
    if bs.len() == 0 {
        Seq::empty()
    } else {
        seq![hex_digit(bs[0] as int / 16), hex_digit(bs[0] as int % 16)] + hex_upper(
            bs.drop_first(),
        )
    }
}

/// Hex rendering distributes over concatenation.
pub proof fn lemma_hex_upper_concat(a: Seq<u8>, b: Seq<u8>)
    ensures
        hex_upper(a + b) == hex_upper(a) + hex_upper(b),
    decreases a.len(),
{
    if a.len() == 0 {
        assert(a + b =~= b);
        assert(hex_upper(a) + hex_upper(b) =~= hex_upper(b));
    } else {
        assert((a + b).drop_first() =~= a.drop_first() + b);
        lemma_hex_upper_concat(a.drop_first(), b);
        assert(hex_upper(a + b) =~= hex_upper(a) + hex_upper(b));
    }
}

/// Appends the upper-case hexadecimal digit of a value below sixteen.
pub(crate) fn push_hex_digit(out: &mut String, d: u8)
    requires
        d < 16,
    ensures
        final(out)@ == old(out)@ + seq![hex_digit(d as int)],
{
    proof {
        reveal_strlit("0");
        reveal_strlit("1");
        reveal_strlit("2");
        reveal_strlit("3");
        reveal_strlit("4");
        reveal_strlit("5");
        reveal_strlit("6");
        reveal_strlit("7");
        reveal_strlit("8");
        reveal_strlit("9");
        reveal_strlit("A");
        reveal_strlit("B");
        reveal_strlit("C");
        reveal_strlit("D");
        reveal_strlit("E");
        reveal_strlit("F");
    }
    if d == 0 {
        out.append("0");
    } else if d == 1 {
        out.append("1");
    } else if d == 2 {
        out.append("2");
    } else if d == 3 {
        out.append("3");
    } else if d == 4 {
        out.append("4");
    } else if d == 5 {
        out.append("5");
    } else if d == 6 {
        out.append("6");
    } else if d == 7 {
        out.append("7");
    } else if d == 8 {
        out.append("8");
    } else if d == 9 {
        out.append("9");
    } else if d == 10 {
        out.append("A");
    } else if d == 11 {
        out.append("B");
    } else if d == 12 {
        out.append("C");
    } else if d == 13 {
        out.append("D");
    } else if d == 14 {
        out.append("E");
    } else {
        out.append("F");
    }
}

/// The upper-case hexadecimal rendering of a byte string.
pub fn hex_upper_exec(bs: &Vec<u8>) -> (r: String)
    ensures
        r@ == hex_upper(bs@),
{
    let mut out = String::new();
    let mut i: usize = 0;
    while i < bs.len()
        invariant
            0 <= i <= bs@.len(),
            out@ == hex_upper(bs@.subrange(0, i as int)),
        decreases bs@.len() - i,
    {
        let b = bs[i];
        push_hex_digit(&mut out, b / 16);
        push_hex_digit(&mut out, b % 16);
        proof {
            let pre = bs@.subrange(0, i as int);
            let one = seq![bs@[i as int]];
            assert(bs@.subrange(0, i + 1) =~= pre + one);
            lemma_hex_upper_concat(pre, one);
            assert(one.drop_first() =~= Seq::<u8>::empty());
            assert(hex_upper(Seq::<u8>::empty()) =~= Seq::<char>::empty());
            assert(hex_upper(one) =~= seq![
                hex_digit(b as int / 16),
                hex_digit(b as int % 16),
            ]);
            assert(out@ =~= hex_upper(bs@.subrange(0, i + 1)));
        }
        i = i + 1;
    }
    proof {
        assert(bs@.subrange(0, bs@.len() as int) =~= bs@);
    }
    out
}

/// The content hash of a migration text: the upper-case hexadecimal SHA-256
/// digest of its canonical form.
pub open spec fn content_hash(text: Seq<char>) -> Seq<char> {
    hex_upper(sha256_of(canon(text)))
}

/// Hashes a migration text: canonicalize, digest, render as hexadecimal.
pub fn hash_content(text: &str) -> (r: String)
    ensures
        r@ == content_hash(text@),
        r@.len() == 64,
{
    let c = canonicalize(text);
    let d = sha256_digest(c.as_str());
    let r = hex_upper_exec(&d);
    proof {
        lemma_hex_upper_len(d@);
    }
    r
}

/// Two hex digits per byte.
pub proof fn lemma_hex_upper_len(bs: Seq<u8>)
    ensures
        hex_upper(bs).len() == 2 * bs.len(),
    decreases bs.len(),
{
    if bs.len() > 0 {
        lemma_hex_upper_len(bs.drop_first());
    }
}

/// Law: the hash is a function of the canonical form alone — two texts with
/// one canonical form always carry one hash.
pub proof fn lemma_hash_from_canon(a: Seq<char>, b: Seq<char>)
    requires
        canon(a) == canon(b),
    ensures
        content_hash(a) == content_hash(b),
{
}

/// Law: appending a line comment to a text never changes its hash, as long
/// as the text's last line does not end in a bare `-` that the marker would
/// complete earlier, and the comment stays on that line.
pub proof fn lemma_trailing_comment_keeps_hash(x: Seq<char>, c: Seq<char>)
    requires
        forall|j: int| 0 <= j < c.len() ==> c[j] != '\n',
        comment_start(last_line(x)) == last_line(x).len() ==> (last_line(x).len() == 0 || last_line(
            x,
        )[last_line(x).len() - 1] != '-'),
    ensures
        content_hash(x + seq!['-', '-'] + c) == content_hash(x),
{
    let suffix = seq!['-', '-'] + c;
    lemma_comment_append_line(last_line(x), c);
    assert forall|j: int| 0 <= j < suffix.len() implies suffix[j] != '\n' by {
        if j >= 2 {
            assert(suffix[j] == c[j - 2]);
        }
    }
    assert(last_line(x) + suffix =~= last_line(x) + seq!['-', '-'] + c);
    lemma_kept_append_last(x, suffix);
    assert(x + seq!['-', '-'] + c =~= x + suffix);
}

} // verus!
