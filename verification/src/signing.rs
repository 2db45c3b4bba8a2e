//! Signing and checking timewarp hashes with one-time keys, and the
//! conversions between tryte strings and balanced trits that they use.
use vstd::prelude::*;
use iota_conversion::Trinary;
use iota_crypto::Sponge;

verus! {

/// Position of a character in the tryte alphabet `9ABC...Z`, or -1.
pub open spec fn tryte_index(c: char) -> int {
    if c == '9' {
        0
    } else if 65 <= (c as u32) && (c as u32) <= 90 {
        (c as u32) - 64
    } else {
        -1
    }
}

/// The balanced value of a tryte character; characters outside the
/// alphabet count as `9`, whose value is 0.
pub open spec fn tryte_value(c: char) -> int {
    let p = if tryte_index(c) < 0 {
        0
    } else {
        tryte_index(c)
    };
    if p <= 13 {
        p
    } else {
        p - 27
    }
}

/// The lowest balanced ternary digit of `v`.
pub open spec fn low_trit(v: int) -> i8 {
    let r = v % 3;
    if r == 0 {
        0i8
    } else if r == 1 {
        1i8
    } else {
        -1i8
    }
}

/// The `n` lowest balanced ternary digits of `v`, least significant first.
pub open spec fn balanced_digits(v: int, n: nat) -> Seq<i8>
    decreases n,
{
    if n == 0 {
        Seq::empty()
    } else {
        seq![low_trit(v)] + balanced_digits((v - low_trit(v)) / 3, (n - 1) as nat)
    }
}

/// The trits of a tryte string, three per character, least significant first.
pub open spec fn trits_of(s: Seq<char>) -> Seq<i8>
    decreases s.len(),
{
    if s.len() == 0 {
        Seq::empty()
    } else {
        trits_of(s.drop_last()) + balanced_digits(tryte_value(s.last()), 3)
    }
}

/// The number that trits stand for, least significant first.
pub open spec fn trit_value(t: Seq<i8>) -> int
    decreases t.len(),
{
    if t.len() == 0 {
        0
    } else {
        t[0] + 3 * trit_value(t.drop_first())
    }
}

/// Every trit is -1, 0 or 1.
pub open spec fn trits_in_range(t: Seq<i8>) -> bool {
    forall|i: int| 0 <= i < t.len() ==> -1 <= #[trigger] t[i] <= 1
}

/// The character of the tryte alphabet at position `i`.
pub open spec fn alphabet_char(i: int) -> char {
    if i == 0 {
        '9'
    } else {
        (64 + i) as char
    }
}

/// The character of three trits, or `-` when a trit is out of range.
pub open spec fn tryte_char(t: Seq<i8>) -> char {
    if trits_in_range(t) {
        let v = t[0] + 3 * t[1] + 9 * t[2];
        alphabet_char(if v >= 0 {
            v
        } else {
            v + 27
        })
    } else {
        '-'
    }
}

/// The tryte string of trits whose number is a multiple of three.
pub open spec fn trytes_of(t: Seq<i8>) -> Seq<char>
    decreases t.len(),
{
    if t.len() < 3 {
        Seq::empty()
    } else {
        seq![tryte_char(t.subrange(0, 3))] + trytes_of(t.subrange(3, t.len() as int))
    }
}

/// The trits of the sum of two trit numbers, cut to the longer length.
pub open spec fn trit_sum(a: Seq<i8>, b: Seq<i8>) -> Seq<i8> {
    balanced_digits(
        trit_value(a) + trit_value(b),
        if a.len() >= b.len() {
            a.len()
        } else {
            b.len()
        },
    )
}

/// The normalized form of a bundle hash (values -13..13 per tryte).
pub uninterp spec fn normalized_bundle_of(hash: Seq<char>) -> Seq<i8>;

/// The signature fragment of a normalized hash fragment under a key fragment.
pub uninterp spec fn signature_fragment_of(normalized: Seq<i8>, key_fragment: Seq<i8>) -> Seq<i8>;

/// Whether the signature fragments sign the hash for the address.
pub uninterp spec fn signatures_valid_of(address: Seq<char>, signatures: Seq<Seq<char>>, hash: Seq<char>) -> bool;

/// The private key of a seed at an index and security level.
pub uninterp spec fn signing_key_of(seed: Seq<i8>, index: usize, security: usize) -> Seq<i8>;

/// The digests of a private key.
pub uninterp spec fn key_digests_of(key: Seq<i8>) -> Seq<i8>;

/// The address trits of key digests.
pub uninterp spec fn address_of(digests: Seq<i8>) -> Seq<i8>;

/// The Kerl hash of trits.
pub uninterp spec fn kerl_hash_of(trits: Seq<i8>) -> Seq<i8>;

/// Calls `Trinary::trits` on a `&str`: every character becomes the three
/// balanced trits of its place in the tryte alphabet (unknown ones as `9`).
#[verifier::external_body]
pub(crate) fn str_trits(s: &str) -> (r: Vec<i8>)
    ensures
        r@ == trits_of(s@),
{
    s.trits()
}

/// Calls `Trinary::trytes` on a trit slice: refused unless the length is a
/// multiple of three, else every three trits become one character.
#[verifier::external_body]
fn trits_to_trytes(t: &[i8]) -> (r: Option<String>)
    ensures
        r is Some <==> t@.len() % 3 == 0,
        r is Some ==> r->0@ == trytes_of(t@),
{
    t.trytes().ok()
}

/// Calls `iota_conversion::long_value`: the number of the trits.
#[verifier::external_body]
pub(crate) fn trit_long_value(t: &[i8]) -> (r: i64)
    requires
        t@.len() <= 40,
        trits_in_range(t@),
    ensures
        r == trit_value(t@),
{
    iota_conversion::long_value(t)
}

/// Calls `iota_utils::trit_adder::add`: the balanced ternary sum, as long as
/// the longer operand, the last carry dropped.
#[verifier::external_body]
fn trit_add(a: &[i8], b: &[i8]) -> (r: Vec<i8>)
    requires
        trits_in_range(a@),
        trits_in_range(b@),
    ensures
        r@ == trit_sum(a@, b@),
{
    iota_utils::trit_adder::add(a, b)
}

/// Calls `iota_model::Bundle::normalized_bundle`, which reads the first 81
/// characters: 81 values, each in -13..13.
#[verifier::external_body]
fn normalized_bundle(hash: &str) -> (r: Vec<i8>)
    requires
        hash@.len() >= 81,
    ensures
        r@ == normalized_bundle_of(hash@),
        r@.len() == 81,
        forall|i: int| 0 <= i < 81 ==> -13 <= #[trigger] r@[i] <= 13,
{
    iota_model::Bundle::normalized_bundle(hash).to_vec()
}

/// Calls `iota_signing::signature_fragment`, which hashes each of the
/// first 27 key segments `13 - n` times; never refused, and as long as the
/// key fragment.
#[verifier::external_body]
fn sign_fragment(normalized: &[i8], key_fragment: &[i8]) -> (r: Option<Vec<i8>>)
    requires
        normalized@.len() <= 27,
        key_fragment@.len() >= 243 * normalized@.len(),
        forall|i: int| 0 <= i < normalized@.len() ==> -114 <= #[trigger] normalized@[i],
        trits_in_range(key_fragment@),
    ensures
        r == Some(r->0),
        r->0@ == signature_fragment_of(normalized@, key_fragment@),
        r->0@.len() == key_fragment@.len(),
{
    iota_signing::signature_fragment(normalized, key_fragment).ok()
}

/// Calls `iota_signing::validate_signatures`; with a hash of at least 81
/// trytes and signatures of at least 2187 it is never refused.
#[verifier::external_body]
fn validate_signatures_call(address: &str, signatures: &[String], hash: &str) -> (r: Option<bool>)
    requires
        hash@.len() >= 81,
        forall|i: int| 0 <= i < signatures@.len() ==> (#[trigger] signatures@[i])@.len() >= 2187,
    ensures
        r == Some(
            signatures_valid_of(address@, signatures@.map_values(|s: String| s@), hash@),
        ),
{
    iota_signing::validate_signatures(address, signatures, hash).ok()
}

/// Calls `iota_signing::key`: refused unless the seed's trits are a
/// multiple of 243; the key has 6561 trits per security level.
#[verifier::external_body]
fn signing_key(seed: &[i8], index: usize, security: usize) -> (r: Option<Vec<i8>>)
    requires
        seed@.len() > 0,
        trits_in_range(seed@),
        1 <= security <= 3,
    ensures
        r is Some <==> seed@.len() % 243 == 0,
        r is Some ==> r->0@ == signing_key_of(seed@, index, security) && r->0@.len() == 6561
            * security,
        r is Some ==> trits_in_range(r->0@),
{
    iota_signing::key(seed, index, security).ok()
}

/// Calls `iota_signing::digests`: on trits in -1..1 never refused; 243
/// trits (squeezed from Kerl, so in -1..1) per whole 6561 trits of key.
#[verifier::external_body]
fn key_digests(key: &[i8]) -> (r: Option<Vec<i8>>)
    requires
        trits_in_range(key@),
    ensures
        r == Some(r->0),
        r->0@ == key_digests_of(key@),
        r->0@.len() == (key@.len() / 6561) * 243,
        trits_in_range(r->0@),
{
    iota_signing::digests(key).ok()
}

/// Calls `iota_signing::address` on trits in -1..1: refused unless the
/// digests' trits are a multiple of 243; the address has 243 trits.
#[verifier::external_body]
fn digests_address(digests: &[i8]) -> (r: Option<Vec<i8>>)
    requires
        trits_in_range(digests@),
    ensures
        r is Some <==> digests@.len() % 243 == 0,
        r is Some ==> r->0@ == address_of(digests@) && r->0@.len() == 243,
{
    match iota_signing::address(digests) {
        Ok(a) => Some(a.to_vec()),
        Err(_) => None,
    }
}

/// Calls `iota_crypto::Kerl`: a fresh sponge absorbs the trits, which
/// must lie in -1..1 (it refuses a number that is not a multiple of 243,
/// absorbing nothing), and squeezes 243 trits.
#[verifier::external_body]
fn kerl_hash(trits: &[i8]) -> (r: Vec<i8>)
    requires
        trits_in_range(trits@),
    ensures
        r@ == kerl_hash_of(trits@),
        r@.len() == 243,
{
    let mut curl = iota_crypto::Kerl::default();
    let mut out = [0i8; 243];
    let _absorbed = curl.absorb(trits);
    let _squeezed = curl.squeeze(&mut out);
    out.to_vec()
}

/// The `n` balanced digits of a number are `n` trits.
pub proof fn lemma_balanced_digits(v: int, n: nat)
    ensures
        balanced_digits(v, n).len() == n,
        trits_in_range(balanced_digits(v, n)),
    decreases n,
{
    if n > 0 {
        lemma_balanced_digits((v - low_trit(v)) / 3, (n - 1) as nat);
    }
}

/// A tryte string has three trits per character.
pub proof fn lemma_trits_of(s: Seq<char>)
    ensures
        trits_of(s).len() == 3 * s.len(),
        trits_in_range(trits_of(s)),
    decreases s.len(),
{
    if s.len() > 0 {
        lemma_trits_of(s.drop_last());
        lemma_balanced_digits(tryte_value(s.last()), 3);
        let a = trits_of(s.drop_last());
        let b = balanced_digits(tryte_value(s.last()), 3);
        assert forall|i: int| 0 <= i < (a + b).len() implies -1 <= #[trigger] (a + b)[i] <= 1 by {
            if i < a.len() {
                assert((a + b)[i] == a[i]);
            } else {
                assert((a + b)[i] == b[i - a.len()]);
            }
        }
    }
}

/// Every whole three trits give one tryte.
pub proof fn lemma_trytes_len(t: Seq<i8>)
    ensures
        trytes_of(t).len() == t.len() / 3,
    decreases t.len(),
{
    if t.len() >= 3 {
        lemma_trytes_len(t.subrange(3, t.len() as int));
    }
}

/// A copy of `v[start..end]`.
pub(crate) fn sub_trits(v: &Vec<i8>, start: usize, end: usize) -> (r: Vec<i8>)
    requires
        start <= end <= v@.len(),
    ensures
        r@ == v@.subrange(start as int, end as int),
{
    let mut r: Vec<i8> = Vec::new();
    let mut i = start;
    while i < end
        invariant
            start <= i <= end,
            end <= v@.len(),
            r@ == v@.subrange(start as int, i as int),
        decreases end - i,
    {
        r.push(v[i]);
        i = i + 1;
        proof {
            assert(v@.subrange(start as int, i as int) =~= v@.subrange(start as int, i - 1).push(
                v@[i - 1],
            ));
        }
    }
    r
}

/// The signature of a timewarp hash with security one: the first 27
/// normalized values of the hash signed with the first key fragment.
pub fn sign_tw_hash(private_key: &Vec<i8>, tw_hash: &str) -> (r: String)
    requires
        tw_hash@.len() >= 81,
        private_key@.len() >= 6561,
        trits_in_range(private_key@),
    ensures
        r@ == trytes_of(
            signature_fragment_of(
                normalized_bundle_of(tw_hash@).subrange(0, 27),
                private_key@.subrange(0, 6561),
            ),
        ),
        r@.len() == 2187,
{
    let normalized = normalized_bundle(tw_hash);
    let fragment = sub_trits(&normalized, 0, 27);
    let key_fragment = sub_trits(private_key, 0, 6561);
    proof {
        assert forall|i: int| 0 <= i < key_fragment@.len() implies -1 <= #[trigger] key_fragment@[i]
            <= 1 by {
            assert(key_fragment@[i] == private_key@[i]);
        }
        assert forall|i: int| 0 <= i < fragment@.len() implies -114 <= #[trigger] fragment@[i] by {
            assert(fragment@[i] == normalized@[i]);
        }
    }
    let signature = sign_fragment(fragment.as_slice(), key_fragment.as_slice()).unwrap();
    proof {
        lemma_trytes_len(signature@);
    }
    trits_to_trytes(signature.as_slice()).unwrap()
}

/// Whether `signature` signs `tw_hash` for the address `pub_key`.
pub fn validate_tw_signature(pub_key: &str, tw_hash: &str, signature: &str) -> (r: bool)
    requires
        tw_hash@.len() >= 81,
        signature@.len() >= 2187,
    ensures
        r == signatures_valid_of(pub_key@, seq![signature@], tw_hash@),
{
    let mut signatures: Vec<String> = Vec::new();
    signatures.push(signature.to_owned());
    proof {
        assert(signatures@.map_values(|s: String| s@) =~= seq![signature@]);
    }
    validate_signatures_call(pub_key, signatures.as_slice(), tw_hash).unwrap()
}

/// The tryte string of the index plus one, as long as the index (wrapping
/// around past the largest value).
pub fn increase_index(index: &str) -> (r: String)
    requires
        index@.len() >= 1,
    ensures
        r@ == trytes_of(balanced_digits(trit_value(trits_of(index@)) + 1, 3 * index@.len())),
{
    let trits = str_trits(index);
    let mut one: Vec<i8> = Vec::new();
    one.push(1);
    proof {
        lemma_trits_of(index@);
        assert(trit_value(one@.drop_first()) == 0);
        assert(trit_value(one@) == 1);
        lemma_balanced_digits(trit_value(trits_of(index@)) + 1, 3 * index@.len());
    }
    let sum = trit_add(trits.as_slice(), one.as_slice());
    proof {
        assert((3 * index@.len()) % 3 == 0) by (nonlinear_arith);
    }
    trits_to_trytes(sum.as_slice()).unwrap()
}

/// The number that a tryte string stands for.
pub fn trytes_to_number(trytes: &str) -> (r: i64)
    requires
        trytes@.len() <= 13,
    ensures
        r == trit_value(trits_of(trytes@)),
{
    let trits = str_trits(trytes);
    proof {
        lemma_trits_of(trytes@);
    }
    trit_long_value(trits.as_slice())
}

/// The private key (security one) of `seed` at `index`, and its address.
pub fn generate_key_and_address(seed: &str, index: usize) -> (r: (Vec<i8>, String))
    requires
        seed@.len() > 0,
        seed@.len() % 81 == 0,
    ensures
        r.0@ == signing_key_of(trits_of(seed@), index, 1),
        r.1@ == trytes_of(address_of(key_digests_of(signing_key_of(trits_of(seed@), index, 1)))),
        r.0@.len() == 6561,
        r.1@.len() == 81,
        trits_in_range(r.0@),
{
    let seed_trits = str_trits(seed);
    proof {
        lemma_trits_of(seed@);
        assert(seed_trits@.len() % 243 == 0) by (nonlinear_arith)
            requires
                seed_trits@.len() == 3 * seed@.len(),
                seed@.len() % 81 == 0,
        ;
    }
    let key = signing_key(seed_trits.as_slice(), index, 1).unwrap();
    let digests = key_digests(key.as_slice()).unwrap();
    proof {
        assert(key@.len() / 6561 == 1);
    }
    let address = digests_address(digests.as_slice()).unwrap();
    let address_trytes = trits_to_trytes(address.as_slice()).unwrap();
    proof {
        lemma_trytes_len(address@);
    }
    (key, address_trytes)
}

/// 54 `9`s, which pad a tag to a whole hash.
pub open spec fn tag_padding() -> Seq<char> {
    Seq::new(54, |i: int| '9')
}

/// The hash of a timewarp transaction: the Kerl hash of its address, trunk,
/// branch and tag (padded with 54 `9`s).
pub open spec fn timewarp_hash_spec(address: Seq<char>, trunk: Seq<char>, branch: Seq<char>, tag: Seq<char>) -> Seq<char> {
    trytes_of(
        kerl_hash_of(trits_of(address) + trits_of(trunk) + trits_of(branch) + trits_of(tag + tag_padding())),
    )
}

proof fn lemma_trits_of_concat(a: Seq<char>, b: Seq<char>)
    ensures
        trits_of(a + b) == trits_of(a) + trits_of(b),
    decreases b.len(),
{
    if b.len() == 0 {
        assert(a + b =~= a);
        assert(trits_of(a) + trits_of(b) =~= trits_of(a));
    } else {
        lemma_trits_of_concat(a, b.drop_last());
        assert((a + b).drop_last() =~= a + b.drop_last());
        assert((a + b).last() == b.last());
        let d = balanced_digits(tryte_value(b.last()), 3);
        assert(trits_of(a) + trits_of(b.drop_last()) + d =~= trits_of(a) + (trits_of(b.drop_last()) + d));
    }
}

proof fn lemma_trits_of_nines(n: nat)
    ensures
        trits_of(Seq::new(n, |i: int| '9')) == Seq::new(3 * n, |i: int| 0i8),
    decreases n,
{
    if n > 0 {
        lemma_trits_of_nines((n - 1) as nat);
        assert(Seq::new(n, |i: int| '9').drop_last() =~= Seq::new((n - 1) as nat, |i: int| '9'));
        assert(tryte_value('9') == 0);
        reveal_with_fuel(balanced_digits, 4);
        assert(low_trit(0) == 0);
        assert(balanced_digits(0, 3) =~= seq![0i8, 0i8, 0i8]);
        assert(Seq::new((3 * (n - 1)) as nat, |i: int| 0i8) + seq![0i8, 0i8, 0i8] =~= Seq::new(3 * n, |i: int| 0i8));
    }
}

/// The layout of what the timewarp hash absorbs, whatever the lengths: the
/// address's trits first, then the trunk's, then the branch's, then the
/// tag's, then zero trits for the 54 padding trytes. Swapping any two
/// parts (the trunk and the branch among them) changes that input.
pub proof fn lemma_timewarp_hash_layout(
    address: Seq<char>,
    trunk: Seq<char>,
    branch: Seq<char>,
    tag: Seq<char>,
    input: Seq<i8>,
)
    requires
        ({
            let a = 3 * address.len();
            let t = a + 3 * trunk.len();
            let b = t + 3 * branch.len();
            let g = b + 3 * tag.len();
            &&& input.len() == g + 162
            &&& input.subrange(0, a as int) == trits_of(address)
            &&& input.subrange(a as int, t as int) == trits_of(trunk)
            &&& input.subrange(t as int, b as int) == trits_of(branch)
            &&& input.subrange(b as int, g as int) == trits_of(tag)
            &&& forall|i: int| g <= i < input.len() ==> #[trigger] input[i] == 0
        }),
    ensures
        timewarp_hash_spec(address, trunk, branch, tag) == trytes_of(kerl_hash_of(input)),
{
    lemma_trits_of(address);
    lemma_trits_of(trunk);
    lemma_trits_of(branch);
    lemma_trits_of(tag);
    lemma_trits_of_concat(tag, tag_padding());
    lemma_trits_of_nines(54);
    assert(tag_padding() =~= Seq::new(54, |i: int| '9'));
    let a = 3 * address.len();
    let t = a + 3 * trunk.len();
    let b = t + 3 * branch.len();
    let g = b + 3 * tag.len();
    let whole = trits_of(address) + trits_of(trunk) + trits_of(branch) + trits_of(tag + tag_padding());
    assert(input.subrange(g as int, input.len() as int) =~= Seq::new(162, |i: int| 0i8));
    assert(input =~= input.subrange(0, a as int) + input.subrange(a as int, t as int) + input.subrange(
        t as int,
        b as int,
    ) + (input.subrange(b as int, g as int) + input.subrange(g as int, input.len() as int)));
    assert(input =~= whole);
}

/// Appends the trits of a tryte string.
fn append_trits(out: &mut Vec<i8>, s: &str)
    ensures
        final(out)@ == old(out)@ + trits_of(s@),
        trits_in_range(old(out)@) ==> trits_in_range(final(out)@),
{
    let t = str_trits(s);
    let mut i: usize = 0;
    let ghost start = out@;
    while i < t.len()
        invariant
            i <= t@.len(),
            t@ == trits_of(s@),
            out@ == start + t@.subrange(0, i as int),
        decreases t@.len() - i,
    {
        out.push(t[i]);
        i = i + 1;
        proof {
            assert(t@.subrange(0, i as int) =~= t@.subrange(0, i - 1).push(t@[i - 1]));
        }
    }
    proof {
        assert(t@.subrange(0, t@.len() as int) =~= t@);
        lemma_trits_of(s@);
        if trits_in_range(start) {
            assert forall|j: int| 0 <= j < out@.len() implies -1 <= #[trigger] out@[j] <= 1 by {
                if j < start.len() {
                    assert(out@[j] == start[j]);
                } else {
                    assert(out@[j] == t@[j - start.len()]);
                }
            }
        }
    }
}

pub fn timewarp_hash(address: &str, trunk: &str, branch: &str, tag: &str) -> (r: String)
    ensures
        r@ == timewarp_hash_spec(address@, trunk@, branch@, tag@),
        r@.len() == 81,
{
    let mut a: Vec<i8> = Vec::new();
    append_trits(&mut a, address);
    append_trits(&mut a, trunk);
    append_trits(&mut a, branch);
    let mut padded_tag = tag.to_owned();
    let padding = "999999999999999999999999999999999999999999999999999999";
    proof {
        reveal_strlit("999999999999999999999999999999999999999999999999999999");
        assert(padding@ =~= tag_padding());
    }
    padded_tag.append(padding);
    append_trits(&mut a, padded_tag.as_str());
    proof {
        assert(a@ =~= trits_of(address@) + trits_of(trunk@) + trits_of(branch@) + trits_of(
            tag@ + tag_padding(),
        ));
    }
    let hash_trits = kerl_hash(a.as_slice());
    proof {
        lemma_trytes_len(hash_trits@);
    }
    trits_to_trytes(hash_trits.as_slice()).unwrap()
}

/// The tag trits after `k` increments of the first tag.
pub open spec fn tag_after(t0: Seq<i8>, k: nat) -> Seq<i8>
    decreases k,
{
    if k == 0 {
        t0
    } else {
        balanced_digits(trit_value(tag_after(t0, (k - 1) as nat)) + 1, t0.len())
    }
}

/// The first tag of a timewarp: eleven `9`s, the index, the chain's id and `TW`.
pub open spec fn first_tag(index: Seq<char>, unique_id: Seq<char>) -> Seq<char> {
    Seq::new(11, |i: int| '9') + index + unique_id + seq!['T', 'W']
}

/// A hash can be signed with security one when none of its first 27
/// normalized values is 13.
pub open spec fn signable(hash: Seq<char>) -> bool {
    forall|j: int| 0 <= j < 27 ==> #[trigger] normalized_bundle_of(hash)[j] != 13
}

/// The timewarp hash with the tag after `k` increments.
pub open spec fn hash_at(
    address: Seq<char>,
    trunk: Seq<char>,
    branch: Seq<char>,
    t0: Seq<i8>,
    k: nat,
) -> Seq<char> {
    timewarp_hash_spec(address, trunk, branch, trytes_of(tag_after(t0, k)))
}

/// `k` is the first number of increments whose hash can be signed.
pub open spec fn first_signable(
    address: Seq<char>,
    trunk: Seq<char>,
    branch: Seq<char>,
    t0: Seq<i8>,
    k: nat,
) -> bool {
    &&& signable(hash_at(address, trunk, branch, t0, k))
    &&& forall|j: nat| j < k ==> !#[trigger] signable(hash_at(address, trunk, branch, t0, j))
}

proof fn lemma_tag_after(t0: Seq<i8>, k: nat)
    requires
        trits_in_range(t0),
    ensures
        tag_after(t0, k).len() == t0.len(),
        trits_in_range(tag_after(t0, k)),
    decreases k,
{
    if k > 0 {
        lemma_balanced_digits(trit_value(tag_after(t0, (k - 1) as nat)) + 1, t0.len());
    }
}

/// The trits of the first tag.
fn first_tag_trits(index: &str, unique_id: &str) -> (r: Vec<i8>)
    ensures
        r@ == trits_of(first_tag(index@, unique_id@)),
{
    let mut tag = String::new();
    let nines = "99999999999";
    let tw = "TW";
    proof {
        reveal_strlit("99999999999");
        reveal_strlit("TW");
    }
    tag.append(nines);
    tag.append(index);
    tag.append(unique_id);
    tag.append(tw);
    proof {
        assert(tag@ =~= first_tag(index@, unique_id@));
    }
    str_trits(tag.as_str())
}

/// The hash and the tag trits of one attempt.
fn attempt(address: &str, trunk: &str, branch: &str, tag: &Vec<i8>) -> (r: (String, bool))
    requires
        tag@.len() % 3 == 0,
    ensures
        r.0@ == timewarp_hash_spec(address@, trunk@, branch@, trytes_of(tag@)),
        r.0@.len() == 81,
        r.1 == signable(r.0@),
{
    let tag_trytes = trits_to_trytes(tag.as_slice()).unwrap();
    let hash = timewarp_hash(address, trunk, branch, tag_trytes.as_str());
    let normalized = normalized_bundle(hash.as_str());
    let mut j: usize = 0;
    while j < 27
        invariant
            j <= 27,
            normalized@ == normalized_bundle_of(hash@),
            normalized@.len() == 81,
            hash@.len() == 81,
            hash@ == timewarp_hash_spec(address@, trunk@, branch@, trytes_of(tag@)),
            forall|q: int| 0 <= q < j ==> #[trigger] normalized_bundle_of(hash@)[q] != 13,
        decreases 27 - j,
    {
        if normalized[j] == 13 {
            return (hash, false);
        }
        j = j + 1;
    }
    (hash, true)
}

/// The tag trits after one more increment.
fn next_tag(tag: &Vec<i8>, Ghost(t0): Ghost<Seq<i8>>, Ghost(i): Ghost<nat>) -> (r: Vec<i8>)
    requires
        tag@ == tag_after(t0, i),
        trits_in_range(t0),
        t0.len() >= 1,
    ensures
        r@ == tag_after(t0, i + 1),
{
    let mut one: Vec<i8> = Vec::new();
    one.push(1);
    proof {
        lemma_tag_after(t0, i);
        assert(trit_value(one@.drop_first()) == 0);
        assert(trit_value(one@) == 1);
        assert(trits_in_range(one@));
    }
    trit_add(tag.as_slice(), one.as_slice())
}

/// Finds, from the first tag of `index` and `unique_id` upward, the first
/// tag whose timewarp hash can be signed with security one, and returns
/// that hash and that tag.
pub fn calculate_normalized_timewarp_hash(
    address: &str,
    trunk: &str,
    branch: &str,
    index: &str,
    unique_id: &str,
) -> (r: (String, String))
    requires
        exists|k: nat|
            signable(
                #[trigger] hash_at(address@, trunk@, branch@, trits_of(first_tag(index@, unique_id@)), k),
            ),
    ensures
        exists|k: nat|
            first_signable(address@, trunk@, branch@, trits_of(first_tag(index@, unique_id@)), k)
                && r.0@ == #[trigger] hash_at(
                address@,
                trunk@,
                branch@,
                trits_of(first_tag(index@, unique_id@)),
                k,
            ) && r.1@ == trytes_of(tag_after(trits_of(first_tag(index@, unique_id@)), k)),
        r.0@.len() == 81,
{
    let mut tag = first_tag_trits(index, unique_id);
    let ghost t0 = tag@;
    let ghost goal = choose|k: nat| signable(#[trigger] hash_at(address@, trunk@, branch@, t0, k));
    let ghost mut i: nat = 0;
    proof {
        lemma_trits_of(first_tag(index@, unique_id@));
        assert(t0.len() % 3 == 0) by (nonlinear_arith)
            requires
                t0.len() == 3 * first_tag(index@, unique_id@).len(),
        ;
    }
    loop
        invariant
            tag@ == tag_after(t0, i),
            t0 == trits_of(first_tag(index@, unique_id@)),
            t0.len() % 3 == 0,
            t0.len() >= 1,
            trits_in_range(t0),
            i <= goal,
            signable(hash_at(address@, trunk@, branch@, t0, goal)),
            forall|j: nat| j < i ==> !#[trigger] signable(hash_at(address@, trunk@, branch@, t0, j)),
        decreases goal - i,
    {
        proof {
            lemma_tag_after(t0, i);
        }
        let (hash, ok) = attempt(address, trunk, branch, &tag);
        if ok {
            let tag_trytes = trits_to_trytes(tag.as_slice()).unwrap();
            proof {
                assert(first_signable(address@, trunk@, branch@, t0, i));
            }
            return (hash, tag_trytes);
        }
        tag = next_tag(&tag, Ghost(t0), Ghost(i));
        proof {
            i = i + 1;
        }
    }
}

/// `calculate_normalized_timewarp_hash` limited to `max_attempts` tags:
/// `None` when none of them gives a hash that can be signed.
pub fn calculate_normalized_timewarp_hash_within(
    address: &str,
    trunk: &str,
    branch: &str,
    index: &str,
    unique_id: &str,
    max_attempts: u64,
) -> (r: Option<(String, String)>)
    ensures
        match r {
            Some(p) => exists|k: nat|
                k < max_attempts && first_signable(
                    address@,
                    trunk@,
                    branch@,
                    trits_of(first_tag(index@, unique_id@)),
                    k,
                ) && p.0@ == #[trigger] hash_at(
                    address@,
                    trunk@,
                    branch@,
                    trits_of(first_tag(index@, unique_id@)),
                    k,
                ) && p.1@ == trytes_of(tag_after(trits_of(first_tag(index@, unique_id@)), k))
                && p.0@.len() == 81,
            None => forall|j: nat|
                j < max_attempts ==> !#[trigger] signable(
                    hash_at(address@, trunk@, branch@, trits_of(first_tag(index@, unique_id@)), j),
                ),
        },
{
    let mut tag = first_tag_trits(index, unique_id);
    let ghost t0 = tag@;
    proof {
        lemma_trits_of(first_tag(index@, unique_id@));
        assert(t0.len() % 3 == 0) by (nonlinear_arith)
            requires
                t0.len() == 3 * first_tag(index@, unique_id@).len(),
        ;
    }
    let mut n: u64 = 0;
    while n < max_attempts
        invariant
            tag@ == tag_after(t0, n as nat),
            t0 == trits_of(first_tag(index@, unique_id@)),
            t0.len() % 3 == 0,
            t0.len() >= 1,
            trits_in_range(t0),
            n <= max_attempts,
            forall|j: nat| j < n ==> !#[trigger] signable(hash_at(address@, trunk@, branch@, t0, j)),
        decreases max_attempts - n,
    {
        proof {
            lemma_tag_after(t0, n as nat);
        }
        let (_hash, ok) = attempt(address, trunk, branch, &tag);
        if ok {
            proof {
                assert(signable(hash_at(address@, trunk@, branch@, t0, n as nat)));
            }
            let found = calculate_normalized_timewarp_hash(address, trunk, branch, index, unique_id);
            proof {
                let k = choose|k: nat|
                    first_signable(address@, trunk@, branch@, t0, k) && found.0@ == #[trigger] hash_at(
                        address@,
                        trunk@,
                        branch@,
                        t0,
                        k,
                    ) && found.1@ == trytes_of(tag_after(t0, k));
                if k < n {
                    assert(!signable(hash_at(address@, trunk@, branch@, t0, k)));
                } else if k > n {
                    assert(!signable(hash_at(address@, trunk@, branch@, t0, n as nat)));
                }
                assert(k == n);
            }
            return Some(found);
        }
        tag = next_tag(&tag, Ghost(t0), Ghost(n as nat));
        n = n + 1;
    }
    None
}

/// The largest number `n` balanced trits stand for: (3^n - 1) / 2.
pub open spec fn half_range(n: nat) -> int
    decreases n,
{
    if n == 0 {
        0
    } else {
        3 * half_range((n - 1) as nat) + 1
    }
}

proof fn lemma_half_range_nonneg(n: nat)
    ensures
        half_range(n) >= 0,
    decreases n,
{
    if n > 0 {
        lemma_half_range_nonneg((n - 1) as nat);
    }
}

proof fn lemma_balanced_value(v: int, n: nat)
    requires
        -half_range(n) <= v <= half_range(n),
    ensures
        trit_value(balanced_digits(v, n)) == v,
    decreases n,
{
    if n > 0 {
        let d = low_trit(v);
        let w = (v - d) / 3;
        assert(v - d == 3 * w);
        lemma_half_range_nonneg((n - 1) as nat);
        lemma_balanced_value(w, (n - 1) as nat);
        let b = balanced_digits(v, n);
        assert(b.drop_first() == balanced_digits(w, (n - 1) as nat));
    }
}

proof fn lemma_value_range(t: Seq<i8>)
    requires
        trits_in_range(t),
    ensures
        -half_range(t.len()) <= trit_value(t) <= half_range(t.len()),
    decreases t.len(),
{
    if t.len() > 0 {
        let u = t.drop_first();
        assert forall|i: int| 0 <= i < u.len() implies -1 <= #[trigger] u[i] <= 1 by {
            assert(u[i] == t[i + 1]);
        }
        lemma_value_range(u);
        assert(-1 <= t[0] <= 1);
    }
}

proof fn lemma_trits_of_add(a: Seq<char>, b: Seq<char>)
    ensures
        trits_of(a + b) == trits_of(a) + trits_of(b),
    decreases b.len(),
{
    if b.len() == 0 {
        assert(a + b =~= a);
        assert(trits_of(a) + trits_of(b) =~= trits_of(a));
    } else {
        lemma_trits_of_add(a, b.drop_last());
        assert((a + b).drop_last() =~= a + b.drop_last());
        assert((a + b).last() == b.last());
        assert(trits_of(a + b) =~= trits_of(a) + trits_of(b));
    }
}

proof fn lemma_tryte_char_roundtrip(t: Seq<i8>)
    requires
        t.len() == 3,
        trits_in_range(t),
    ensures
        balanced_digits(tryte_value(tryte_char(t)), 3) == t,
{
    let t0 = t[0] as int;
    let t1 = t[1] as int;
    let t2 = t[2] as int;
    assert(-1 <= t0 <= 1 && -1 <= t1 <= 1 && -1 <= t2 <= 1);
    let v = t0 + 3 * t1 + 9 * t2;
    let idx = if v >= 0 {
        v
    } else {
        v + 27
    };
    let c = tryte_char(t);
    assert(c == alphabet_char(idx));
    if idx == 0 {
        assert(tryte_index(c) == 0);
    } else {
        assert((((64 + idx) as char) as u32) == 64 + idx);
        assert(tryte_index(c) == idx);
    }
    assert(tryte_value(c) == v);
    let w1 = (v - low_trit(v)) / 3;
    assert(low_trit(v) == t0);
    assert(w1 == t1 + 3 * t2);
    let w2 = (w1 - low_trit(w1)) / 3;
    assert(low_trit(w1) == t1);
    assert(w2 == t2);
    assert(low_trit(w2) == t2);
    let b = balanced_digits(v, 3);
    reveal_with_fuel(balanced_digits, 4);
    assert(b =~= seq![low_trit(v), low_trit(w1), low_trit(w2)]);
    assert(b =~= t);
}

proof fn lemma_trits_of_trytes(t: Seq<i8>)
    requires
        t.len() % 3 == 0,
        trits_in_range(t),
    ensures
        trits_of(trytes_of(t)) == t,
    decreases t.len(),
{
    if t.len() >= 3 {
        let head = t.subrange(0, 3);
        let rest = t.subrange(3, t.len() as int);
        assert forall|i: int| 0 <= i < head.len() implies -1 <= #[trigger] head[i] <= 1 by {
            assert(head[i] == t[i]);
        }
        assert forall|i: int| 0 <= i < rest.len() implies -1 <= #[trigger] rest[i] <= 1 by {
            assert(rest[i] == t[i + 3]);
        }
        lemma_trits_of_trytes(rest);
        lemma_tryte_char_roundtrip(head);
        let c = tryte_char(head);
        lemma_trits_of_add(seq![c], trytes_of(rest));
        assert(seq![c].drop_last() =~= Seq::<char>::empty());
        reveal_with_fuel(trits_of, 2);
        assert(trits_of(seq![c]) =~= balanced_digits(tryte_value(c), 3));
        assert(t =~= head + rest);
    } else {
        assert(t.len() == 0);
        assert(trytes_of(t) =~= Seq::<char>::empty());
        assert(trits_of(trytes_of(t)) =~= t);
    }
}

/// Reading back an increased index gives one more than the index, as long
/// as that still fits in its trytes.
pub proof fn lemma_increase_index_value(index: Seq<char>)
    requires
        index.len() >= 1,
        trit_value(trits_of(index)) + 1 <= half_range(3 * index.len()),
    ensures
        trit_value(trits_of(trytes_of(balanced_digits(trit_value(trits_of(index)) + 1, 3 * index.len()))))
            == trit_value(trits_of(index)) + 1,
{
    let n = 3 * index.len();
    let v = trit_value(trits_of(index));
    lemma_trits_of(index);
    lemma_value_range(trits_of(index));
    lemma_balanced_digits(v + 1, n);
    assert(n % 3 == 0) by (nonlinear_arith)
        requires
            n == 3 * index.len(),
    ;
    lemma_trits_of_trytes(balanced_digits(v + 1, n));
    lemma_balanced_value(v + 1, n);
}

} // verus!
