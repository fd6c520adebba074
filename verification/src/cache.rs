//! Names of cached files, from a hash of what they are made of.

use vstd::prelude::*;
use vstd::utf8::encode_utf8;
use crate::export::{export_target, path_in};
use crate::text::joined;

verus! {

/// The hash of the first `n` bytes: FNV-1a of 64 bits.
pub open spec fn hash_upto(bytes: Seq<u8>, n: int) -> u64
    decreases n,
{
    if n <= 0 {
        0xcbf2_9ce4_8422_2325
    } else {
        (hash_upto(bytes, n - 1) ^ (bytes[n - 1] as u64)).wrapping_mul(0x100_0000_01b3)
    }
}

/// The hash of a text.
pub open spec fn hash_of(s: Seq<char>) -> u64 {
    let bytes = encode_utf8(s);
    hash_upto(bytes, bytes.len() as int)
}

/// A stable hash of a text.
pub fn fx_hash(s: &str) -> (r: u64)
    ensures
        r == hash_of(s@),
{
    let bytes: &[u8] = s.as_bytes();
    let mut h: u64 = 0xcbf2_9ce4_8422_2325;
    let mut i: usize = 0;
    while i < bytes.len()
        invariant
            i <= bytes.len(),
            h == hash_upto(bytes@, i as int),
        decreases bytes.len() - i,
    {
        h = (h ^ (bytes[i] as u64)).wrapping_mul(0x100_0000_01b3);
        i += 1;
    }
    h
}

/// A hexadecimal digit.
pub open spec fn hex_char(d: int) -> char {
    if d < 10 {
        (('0' as u32) + d) as u32 as char
    } else {
        (('a' as u32) + d - 10) as u32 as char
    }
}

/// The last `k` hexadecimal digits of a number.
pub open spec fn hex_notation(n: int, k: nat) -> Seq<char>
    decreases k,
{
    if k == 0 {
        Seq::empty()
    } else {
        hex_notation(n / 16, (k - 1) as nat).push(hex_char(n % 16))
    }
}

fn hex_digit_char(d: u8) -> (r: char)
    requires
        d < 16,
    ensures
        r == hex_char(d as int),
{
    if d < 10 {
        (48 + d) as char
    } else {
        (97 + (d - 10)) as char
    }
}

fn push_hex(s: &mut String, n: u64, k: u8)
    ensures
        final(s)@ == old(s)@ + hex_notation(n as int, k as nat),
    decreases k,
{
    if k == 0 {
        assert(s@ =~= s@ + hex_notation(n as int, 0));
    } else {
        let ghost before = s@;
        push_hex(s, n / 16, k - 1);
        s.push(hex_digit_char((n % 16) as u8));
        assert(s@ =~= before + hex_notation(n as int, k as nat));
    }
}

/// A number in sixteen hexadecimal digits.
pub fn hex_text(n: u64) -> (r: String)
    ensures
        r@ == hex_notation(n as int, 16),
{
    let mut s: String = String::new();
    push_hex(&mut s, n, 16);
    assert(s@ =~= hex_notation(n as int, 16));
    s
}

/// The name of a file made of `key`: a label, the hash of the key, and an
/// extension.
pub open spec fn hashed_name(label: Seq<char>, key: Seq<char>, extension: Seq<char>) -> Seq<char> {
    label + hex_notation(hash_of(key) as int, 16) + extension
}

fn hashed(label: &str, key: &str, extension: &str) -> (r: String)
    ensures
        r@ == hashed_name(label@, key@, extension@),
{
    let mut s: String = joined(label, hex_text(fx_hash(key)).as_str());
    s.append(extension);
    s
}

/// The file that holds the thumbnail of a media URI.
pub fn thumbnail_name(uri: &str) -> (r: String)
    ensures
        r@ == hashed_name("thumb-"@, uri@, ".png"@),
{
    hashed("thumb-", uri, ".png")
}

/// The file that holds the lightweight copy of a media URI.
pub fn proxy_name(uri: &str) -> (r: String)
    ensures
        r@ == hashed_name("proxy-"@, uri@, ".mkv"@),
{
    hashed("proxy-", uri, ".mkv")
}

/// The path of the lightweight copy of a media URI, whether or not there is one
/// yet.
pub fn proxy_path(cache_dir: &str, uri: &str) -> (r: String)
    ensures
        r@ == path_in(cache_dir@, hashed_name("proxy-"@, uri@, ".mkv"@)),
{
    export_target(cache_dir, proxy_name(uri).as_str())
}

/// The file that a lightweight copy is written to until it is complete.
pub fn proxy_part_name(uri: &str) -> (r: String)
    ensures
        r@ == hashed_name("proxy-"@, uri@, ".mkv.part"@),
{
    hashed("proxy-", uri, ".mkv.part")
}

/// The file that holds the waveform of a media URI.
pub fn waveform_name(uri: &str) -> (r: String)
    ensures
        r@ == hashed_name("wave-"@, uri@, ".png"@),
{
    hashed("wave-", uri, ".png")
}

/// The file that holds the preview of a def, by the text of the def.
pub fn template_name(def: &str) -> (r: String)
    ensures
        r@ == hashed_name("tpl-"@, def@, ".png"@),
{
    hashed("tpl-", def, ".png")
}

proof fn lemma_hex_notation_len(n: int, k: nat)
    ensures
        hex_notation(n, k).len() == k,
    decreases k,
{
    if k > 0 {
        lemma_hex_notation_len(n / 16, (k - 1) as nat);
    }
}

proof fn lemma_hex_injective(a: int, b: int, k: nat)
    requires
        0 <= a,
        0 <= b,
        hex_notation(a, k) == hex_notation(b, k),
    ensures
        a % pow16(k) == b % pow16(k),
    decreases k,
{
    if k > 0 {
        let x = hex_notation(a / 16, (k - 1) as nat);
        let y = hex_notation(b / 16, (k - 1) as nat);
        assert(x.push(hex_char(a % 16)).drop_last() =~= x);
        assert(y.push(hex_char(b % 16)).drop_last() =~= y);
        assert(x.push(hex_char(a % 16)).last() == y.push(hex_char(b % 16)).last());
        lemma_hex_char(a % 16, b % 16);
        lemma_hex_injective(a / 16, b / 16, (k - 1) as nat);
        lemma_pow16(a, k);
        lemma_pow16(b, k);
    } else {
        assert(a % 1 == 0);
        assert(b % 1 == 0);
    }
}

pub open spec fn pow16(k: nat) -> int
    decreases k,
{
    if k == 0 {
        1
    } else {
        16 * pow16((k - 1) as nat)
    }
}

proof fn lemma_pow16_positive(k: nat)
    ensures
        pow16(k) > 0,
    decreases k,
{
    if k > 0 {
        lemma_pow16_positive((k - 1) as nat);
    }
}

proof fn lemma_pow16(a: int, k: nat)
    requires
        0 <= a,
        k > 0,
    ensures
        a % pow16(k) == 16 * ((a / 16) % pow16((k - 1) as nat)) + a % 16,
{
    let m = pow16((k - 1) as nat);
    lemma_pow16_positive((k - 1) as nat);
    vstd::arithmetic::div_mod::lemma_mod_breakdown(a, 16, m);
}

proof fn lemma_hex_char(a: int, b: int)
    requires
        0 <= a < 16,
        0 <= b < 16,
        hex_char(a) == hex_char(b),
    ensures
        a == b,
{
    assert(('0' as u32) == 48);
    assert(('a' as u32) == 97);
    assert((hex_char(a) as u32) == if a < 10 {
        48 + a
    } else {
        87 + a
    });
    assert((hex_char(b) as u32) == if b < 10 {
        48 + b
    } else {
        87 + b
    });
}

/// Cached files of the same sort share a name exactly when the hashes of what
/// they are made of agree.
pub proof fn law_cache_names(label: Seq<char>, extension: Seq<char>, a: Seq<char>, b: Seq<char>)
    ensures
        hashed_name(label, a, extension) == hashed_name(label, b, extension) <==> hash_of(a)
            == hash_of(b),
{
    let x = hex_notation(hash_of(a) as int, 16);
    let y = hex_notation(hash_of(b) as int, 16);
    lemma_hex_notation_len(hash_of(a) as int, 16);
    lemma_hex_notation_len(hash_of(b) as int, 16);
    let s = hashed_name(label, a, extension);
    let t = hashed_name(label, b, extension);
    if s == t {
        let n = label.len() as int;
        assert(s.subrange(n, n + 16) =~= x);
        assert(t.subrange(n, n + 16) =~= y);
        lemma_hex_injective(hash_of(a) as int, hash_of(b) as int, 16);
        assert(pow16(16) == 18_446_744_073_709_551_616) by {
            reveal_with_fuel(pow16, 17);
        }
        vstd::arithmetic::div_mod::lemma_small_mod(hash_of(a) as nat, 18_446_744_073_709_551_616);
        vstd::arithmetic::div_mod::lemma_small_mod(hash_of(b) as nat, 18_446_744_073_709_551_616);
    }
}

} // verus!
