//! Ticket ids: `tk-` and a few hex digits for a ticket of its own, the
//! parent's id, a dot and a running number for a child.

use crate::number::{decimal, lemma_number_of_decimal, number_of, parse_number, push_decimal};
use crate::text::{has_prefix, to_chars};
use crate::types::{has_name, names};
use sha2::Digest;
use vstd::prelude::*;
use vstd::slice::*;
use vstd::string::*;

verus! {

/// What every generated id begins with.
pub open spec fn id_prefix() -> Seq<char> {
    seq!['t', 'k', '-']
}

/// The lower-case hex digit for `n`.
pub open spec fn hex_digit(n: int) -> char {
    if n == 0 {
        '0'
    } else if n == 1 {
        '1'
    } else if n == 2 {
        '2'
    } else if n == 3 {
        '3'
    } else if n == 4 {
        '4'
    } else if n == 5 {
        '5'
    } else if n == 6 {
        '6'
    } else if n == 7 {
        '7'
    } else if n == 8 {
        '8'
    } else if n == 9 {
        '9'
    } else if n == 10 {
        'a'
    } else if n == 11 {
        'b'
    } else if n == 12 {
        'c'
    } else if n == 13 {
        'd'
    } else if n == 14 {
        'e'
    } else {
        'f'
    }
}

/// `c` is a lower-case hex digit.
pub open spec fn is_hex(c: char) -> bool {
    exists|n: int| 0 <= n < 16 && c == #[trigger] hex_digit(n)
}

/// `bytes` in hex: two lower-case digits for each byte, the high half first.
pub open spec fn hex_text(bytes: Seq<u8>) -> Seq<char> {
    Seq::new(
        2 * bytes.len(),
        |i: int|
            hex_digit(
                if i % 2 == 0 {
                    bytes[i / 2] as int / 16
                } else {
                    bytes[i / 2] as int % 16
                },
            ),
    )
}

/// The SHA-256 digest of `data`.
pub uninterp spec fn sha256_of(data: Seq<u8>) -> Seq<u8>;

/// The id made of the first `len` hex digits of `digest`, or of all its
/// digits if it has fewer.
pub open spec fn id_text(digest: Seq<u8>, len: int) -> Seq<char> {
    let digits = hex_text(digest);
    if 0 <= len <= digits.len() {
        id_prefix() + digits.take(len)
    } else {
        id_prefix() + digits
    }
}

/// `id` looks like a generated id: the prefix, then hex digits only.
pub open spec fn is_generated(id: Seq<char>) -> bool {
    &&& id_prefix().is_prefix_of(id)
    &&& forall|i: int| 3 <= i < id.len() ==> is_hex(#[trigger] id[i])
}

/// What the id of a child of `parent` begins with.
pub open spec fn child_prefix(parent: Seq<char>) -> Seq<char> {
    parent.push('.')
}

/// The number of `id` among the children of `parent`, if it is one: `id` is the
/// parent's id, a dot, and a number and nothing else.
pub open spec fn child_number(parent: Seq<char>, id: Seq<char>) -> Option<u32> {
    let prefix = child_prefix(parent);
    if prefix.is_prefix_of(id) {
        number_of(id.skip(prefix.len() as int))
    } else {
        None
    }
}

/// The greatest number among the children of `parent` in `existing`; 0 if
/// there is no child.
pub open spec fn max_child(parent: Seq<char>, existing: Seq<Seq<char>>) -> nat
    decreases existing.len(),
{
    if existing.len() == 0 {
        0
    } else {
        let rest = max_child(parent, existing.drop_last());
        match child_number(parent, existing.last()) {
            Some(n) => if n > rest {
                n as nat
            } else {
                rest
            },
            None => rest,
        }
    }
}

/// The id of the next child of `parent`.
pub open spec fn next_child(parent: Seq<char>, existing: Seq<Seq<char>>) -> Seq<char> {
    child_prefix(parent) + decimal(max_child(parent, existing) + 1)
}

/// No child in `existing` has a number above `max_child`.
pub proof fn lemma_max_child(parent: Seq<char>, existing: Seq<Seq<char>>, i: int)
    requires
        0 <= i < existing.len(),
        child_number(parent, existing[i]) is Some,
    ensures
        child_number(parent, existing[i])->0 <= max_child(parent, existing),
    decreases existing.len(),
{
    if i < existing.len() - 1 {
        assert(existing.drop_last()[i] == existing[i]);
        lemma_max_child(parent, existing.drop_last(), i);
    }
}

/// The id of the next child is the id of no ticket in `existing`: its number
/// is above that of every child there.
pub proof fn lemma_next_child_is_new(parent: Seq<char>, existing: Seq<Seq<char>>)
    requires
        max_child(parent, existing) < u32::MAX,
    ensures
        child_number(parent, next_child(parent, existing)) == Some(
            (max_child(parent, existing) + 1) as u32,
        ),
        !existing.contains(next_child(parent, existing)),
{
    let n = (max_child(parent, existing) + 1) as u32;
    let id = next_child(parent, existing);
    lemma_number_of_decimal(n);
    assert(id.skip(child_prefix(parent).len() as int) =~= decimal(n as nat));
    assert(child_prefix(parent).is_prefix_of(id));
    if existing.contains(id) {
        let i = choose|i: int| 0 <= i < existing.len() && existing[i] == id;
        lemma_max_child(parent, existing, i);
    }
}

/// `uuid::Uuid::new_v4` gives a random UUID, and `Uuid::as_bytes` its sixteen
/// bytes. Nothing is claimed of the bytes but their count.
#[verifier::external_body]
fn random_bytes() -> (r: Vec<u8>)
    ensures
        r.len() == 16,
{
    uuid::Uuid::new_v4().as_bytes().to_vec()
}

/// `sha2::Sha256::digest` gives the SHA-256 digest of `data`, a function of
/// the bytes alone, 32 bytes long.
#[verifier::external_body]
fn sha256(data: &[u8]) -> (r: Vec<u8>)
    ensures
        r@ == sha256_of(data@),
        r.len() == 32,
{
    sha2::Sha256::digest(data).to_vec()
}

/// `hex::encode` writes each byte as two lower-case hex digits, in order.
#[verifier::external_body]
fn hex_encode(data: &[u8]) -> (r: String)
    ensures
        r@ == hex_text(data@),
{
    hex::encode(data)
}

/// The id made of the first `len` hex digits of `digest`, or of all its
/// digits if it has fewer.
pub fn candidate(digest: &[u8], len: usize) -> (r: String)
    ensures
        r@ == id_text(digest@, len as int),
        is_generated(r@),
        len <= 2 * digest.len() ==> r@.len() == 3 + len,
{
    let hex = hex_encode(digest);
    let digits = to_chars(hex.as_str());
    let len: usize = if len <= digits.len() {
        len
    } else {
        digits.len()
    };
    assert(digits@.take(digits.len() as int) =~= digits@);
    let mut r = String::new();
    r.push('t');
    r.push('k');
    r.push('-');
    let mut i: usize = 0;
    while i < len
        invariant
            i <= len <= digits.len(),
            digits@ == hex_text(digest@),
            r@ == id_prefix() + digits@.take(i as int),
        decreases len - i,
    {
        r.push(digits[i]);
        assert(digits@.take(i + 1) =~= digits@.take(i as int).push(digits@[i as int]));
        i += 1;
    }
    proof {
        assert forall|k: int| 3 <= k < r@.len() implies is_hex(#[trigger] r@[k]) by {
            let j = k - 3;
            assert(r@[k] == digits@[j]);
            let n = if j % 2 == 0 {
                digest@[j / 2] as int / 16
            } else {
                digest@[j / 2] as int % 16
            };
            assert(digits@[j] == hex_digit(n));
        }
    }
    r
}

/// `id` may be drawn for a ticket when the tickets `existing` are there: it is
/// made of the digest of sixteen bytes, with four to eight digits where that is
/// the id of no ticket yet, and with sixteen digits as a last resort.
pub open spec fn may_be_drawn(id: Seq<char>, existing: Seq<Seq<char>>) -> bool {
    exists|seed: Seq<u8>, len: int|
        {
            &&& seed.len() == 16
            &&& id == #[trigger] id_text(sha256_of(seed), len)
            &&& len == 16 || (4 <= len <= 8 && !existing.contains(id))
        }
}

/// The id made of the first `len` hex digits of the SHA-256 digest of `seed`;
/// the digest has 64.
pub fn id_from_seed(seed: &[u8], len: usize) -> (r: String)
    ensures
        r@ == id_text(sha256_of(seed@), len as int),
        is_generated(r@),
        len <= 64 ==> r@.len() == 3 + len,
{
    let digest = sha256(seed);
    candidate(digest.as_slice(), len)
}

/// A new id for a ticket of its own: `tk-` and hex digits drawn at random.
///
/// Short ids are tried first, from four digits up to eight with a hundred
/// draws for each length, and the first that is the id of no ticket in
/// `existing` is returned. Should every draw be taken already, an id of
/// sixteen digits is returned as it is drawn.
pub fn generate(existing: &[String]) -> (r: String)
    ensures
        may_be_drawn(r@, names(existing@)),
        is_generated(r@),
        7 <= r@.len() <= 11 || r@.len() == 19,
        r@.len() <= 11 ==> !names(existing@).contains(r@),
{
    let mut len: usize = 4;
    while len <= 8
        invariant
            4 <= len <= 9,
        decreases 9 - len,
    {
        let mut draw: usize = 0;
        while draw < 100
            invariant
                draw <= 100,
                4 <= len <= 8,
            decreases 100 - draw,
        {
            let seed = random_bytes();
            let id = id_from_seed(seed.as_slice(), len);
            if !has_name(existing, &id) {
                assert(id@ == id_text(sha256_of(seed@), len as int));
                return id;
            }
            draw += 1;
        }
        len += 1;
    }
    let seed = random_bytes();
    let id = id_from_seed(seed.as_slice(), 16);
    assert(id@ == id_text(sha256_of(seed@), 16));
    id
}

/// The greatest number among the children of `parent_id` in `existing`; 0 if
/// there is no child.
pub fn max_child_number(parent_id: &str, existing: &[String]) -> (m: u32)
    ensures
        m == max_child(parent_id@, names(existing@)),
{
    let mut prefix = to_chars(parent_id);
    prefix.push('.');
    let ghost all = names(existing@);
    let mut m: u32 = 0;
    let mut i: usize = 0;
    assert(all.take(0) =~= Seq::<Seq<char>>::empty());
    while i < existing.len()
        invariant
            i <= existing.len(),
            all == names(existing@),
            prefix@ == child_prefix(parent_id@),
            m == max_child(parent_id@, all.take(i as int)),
        decreases existing.len() - i,
    {
        let id = to_chars(existing[i].as_str());
        proof {
            assert(all.take(i + 1).drop_last() =~= all.take(i as int));
            assert(all.take(i + 1).last() == id@);
        }
        if has_prefix(id.as_slice(), prefix.as_slice()) {
            let rest = slice_subrange(id.as_slice(), prefix.len(), id.len());
            assert(rest@ == id@.skip(prefix.len() as int));
            match parse_number(rest) {
                Some(n) => {
                    if n > m {
                        m = n;
                    }
                },
                None => {},
            }
        }
        i += 1;
    }
    assert(all.take(i as int) =~= all);
    m
}

/// The id of the next child of `parent_id`: the parent's id, a dot, and one
/// more than the greatest number among its children in `existing`.
pub fn generate_child(parent_id: &str, existing: &[String]) -> (r: String)
    requires
        max_child(parent_id@, names(existing@)) < u32::MAX,
    ensures
        r@ == next_child(parent_id@, names(existing@)),
        !names(existing@).contains(r@),
{
    let m = max_child_number(parent_id, existing);
    let mut r = String::new();
    r.append(parent_id);
    r.push('.');
    push_decimal(&mut r, m + 1);
    proof {
        assert(r@ =~= next_child(parent_id@, names(existing@)));
        lemma_next_child_is_new(parent_id@, names(existing@));
    }
    r
}

} // verus!
