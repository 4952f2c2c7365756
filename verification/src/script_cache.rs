//! Bounded caches: of script verdicts, and of the results of the hash opcodes.
//!
//! A cache is keyed by the SHA-256 of everything that the cached result
//! depends on. It only ever holds results that were computed, so what it
//! answers is the result for inputs with the digest that was asked for. The
//! entries live in a least-recently-used cache of an outside crate; which
//! entry leaves when the cache is full is up to that crate, and nothing
//! here depends on it.

use vstd::prelude::*;
use crate::bytes::{append_bytes, append_le, copy_bytes, le_bytes};
use crate::crypto::{double_sha256, double_sha256_spec, hash160, hash160_spec, sha256, sha256_digest};
use crate::error::ConsensusError;
use crate::script::{no_context, verify_script, verify_spec, witness_view, OP_HASH160, OP_HASH256};
use crate::serialization::varint::{append_varint, varint_spec};
use crate::types::ByteString;

verus! {

/// The number of verdicts that a cache holds unless told otherwise.
pub const SCRIPT_CACHE_CAPACITY: usize = 10_000;

/// The largest number of results that a cache can be made for.
pub const MAX_SCRIPT_CACHE_CAPACITY: usize = 1_000_000;

/// Makes the type `LruCache` of the crate lru known. Nothing is claimed of
/// it: a value of the type is carried through and handed to the crate.
#[verifier::external_type_specification]
#[verifier::external_body]
#[verifier::reject_recursive_types(K)]
#[verifier::reject_recursive_types(V)]
#[verifier::reject_recursive_types(S)]
pub struct ExLruCache<K, V, S>(lru::LruCache<K, V, S>);

/// Makes the hasher that `LruCache` uses by default known. Nothing is
/// claimed of it.
#[verifier::external_type_specification]
#[verifier::external_body]
pub struct ExCacheHasher(lru::DefaultHasher);

/// The cache of an outside crate that holds the results: under a key of 32
/// bytes, a string of bytes.
pub type ResultCache = lru::LruCache<[u8; 32], Vec<u8>>;

/// The entries that a cache of the crate lru holds: for each key, its
/// value. The order in which they were used is no part of it.
pub uninterp spec fn cache_entries(cache: ResultCache) -> Map<Seq<u8>, Seq<u8>>;

/// The number of entries that a cache of the crate lru was made for: the
/// limit that `LruCache::new` was given. It is not what the cache has
/// allocated, nor the number of entries that it holds.
pub uninterp spec fn cache_limit(cache: ResultCache) -> nat;

/// Calls `LruCache::new` of the crate lru.
///
/// Trusted: the new cache holds no entry, its entries are finitely many,
/// and its limit is the capacity that was asked for.
#[verifier::external_body]
fn lru_new(capacity: usize) -> (cache: ResultCache)
    requires
        0 < capacity <= MAX_SCRIPT_CACHE_CAPACITY,
    ensures
        forall|k: Seq<u8>| !cache_entries(cache).contains_key(k),
        cache_entries(cache).dom().finite(),
        cache_limit(cache) == capacity,
{
    lru::LruCache::new(core::num::NonZeroUsize::new(capacity).unwrap())
}

/// Calls `LruCache::peek` of the crate lru, and copies what it finds.
///
/// Trusted: the answer is the value that the cache holds for the key, if it
/// holds one; the cache is not changed.
#[verifier::external_body]
fn lru_peek(cache: &ResultCache, key: &[u8; 32]) -> (r: Option<Vec<u8>>)
    ensures
        r is Some == cache_entries(*cache).contains_key(key@),
        r is Some ==> r->Some_0@ == cache_entries(*cache)[key@],
{
    cache.peek(key).cloned()
}

/// Calls `LruCache::cap` of the crate lru.
///
/// Trusted: the answer is the limit that the cache was made with.
#[verifier::external_body]
fn lru_cap(cache: &ResultCache) -> (n: usize)
    ensures
        n == cache_limit(*cache),
{
    cache.cap().get()
}

/// Calls `LruCache::len` of the crate lru.
///
/// Trusted: the answer is the number of entries that the cache holds.
#[verifier::external_body]
fn lru_len(cache: &ResultCache) -> (n: usize)
    ensures
        n == cache_entries(*cache).dom().len(),
{
    cache.len()
}

/// Calls `LruCache::put` of the crate lru.
///
/// Trusted: afterwards the cache holds the value for the key; every other
/// entry that it holds it held before, with the same value. An entry may
/// have left to make room: the entries are finitely many, and no more than
/// the limit of the cache, which stays as it was.
#[verifier::external_body]
fn lru_put(cache: &mut ResultCache, key: [u8; 32], value: Vec<u8>)
    ensures
        cache_entries(*final(cache)).contains_key(key@),
        cache_entries(*final(cache))[key@] == value@,
        cache_limit(*final(cache)) == cache_limit(*old(cache)),
        cache_entries(*final(cache)).dom().finite(),
        cache_entries(*final(cache)).dom().len() <= cache_limit(*final(cache)),
        forall|k: Seq<u8>|
            k != key@ && #[trigger] cache_entries(*final(cache)).contains_key(k) ==> cache_entries(
                *old(cache),
            ).contains_key(k) && cache_entries(*final(cache))[k] == cache_entries(*old(cache))[k],
{
    cache.put(key, value);
}

/// The bytes that stand for a verdict in the cache.
pub open spec fn verdict_bytes(b: bool) -> Seq<u8> {
    if b {
        seq![1u8]
    } else {
        seq![0u8]
    }
}

/// Everything that a verdict depends on.
pub ghost struct ScriptInputs {
    pub script_sig: Seq<u8>,
    pub script_pubkey: Seq<u8>,
    pub witness: Option<Seq<u8>>,
    pub flags: u32,
}

/// The bytes that the key is the digest of: each script with its length
/// before it, a byte that says whether there is a witness, and the flags.
pub open spec fn key_material(i: ScriptInputs) -> Seq<u8> {
    varint_spec(i.script_sig.len()) + i.script_sig + varint_spec(i.script_pubkey.len()) + i.script_pubkey + (
    match i.witness {
        Some(w) => seq![1u8] + varint_spec(w.len()) + w,
        None => seq![0u8],
    }) + le_bytes(i.flags as nat, 4)
}

/// The key of the inputs: the SHA-256 of their bytes.
pub open spec fn script_cache_key_spec(i: ScriptInputs) -> Seq<u8> {
    sha256_digest(key_material(i))
}

/// The verdict on the inputs.
pub open spec fn verdict(i: ScriptInputs) -> Result<bool, ConsensusError> {
    verify_spec(i.script_sig, i.script_pubkey, i.witness, no_context())
}

/// Whether every entry is the verdict on inputs with its key.
pub open spec fn entries_sound(entries: Map<Seq<u8>, Seq<u8>>) -> bool {
    forall|k: Seq<u8>| #[trigger]
        entries.contains_key(k) ==> exists|i: ScriptInputs, b: bool|
            #[trigger] script_cache_key_spec(i) == k && verdict(i) == Ok::<bool, ConsensusError>(b)
                && entries[k] == #[trigger] verdict_bytes(b)
}

/// The capacity that a cache is made with where `capacity` is asked for:
/// at least 1 and at most `MAX_SCRIPT_CACHE_CAPACITY`.
pub open spec fn bounded_capacity(capacity: usize) -> nat {
    if capacity == 0 {
        1
    } else if capacity > MAX_SCRIPT_CACHE_CAPACITY {
        MAX_SCRIPT_CACHE_CAPACITY as nat
    } else {
        capacity as nat
    }
}

/// Whether the entries are finitely many, and no more than `limit`.
pub open spec fn entries_bounded(entries: Map<Seq<u8>, Seq<u8>>, limit: nat) -> bool {
    entries.dom().finite() && entries.dom().len() <= limit
}

/// A bounded cache of script verdicts.
pub struct ScriptCache {
    cache: ResultCache,
}

/// The key of the inputs: the SHA-256 of their bytes.
pub fn compute_script_cache_key(
    script_sig: &ByteString,
    script_pubkey: &ByteString,
    witness: Option<&ByteString>,
    flags: u32,
) -> (key: [u8; 32])
    ensures
        key@ == script_cache_key_spec(
            ScriptInputs { script_sig: script_sig@, script_pubkey: script_pubkey@, witness: witness_view(witness), flags },
        ),
{
    let mut material: Vec<u8> = Vec::new();
    append_varint(&mut material, script_sig.len() as u64);
    append_bytes(&mut material, script_sig.as_slice());
    append_varint(&mut material, script_pubkey.len() as u64);
    append_bytes(&mut material, script_pubkey.as_slice());
    match witness {
        Some(w) => {
            material.push(1u8);
            append_varint(&mut material, w.len() as u64);
            append_bytes(&mut material, w.as_slice());
        },
        None => {
            material.push(0u8);
        },
    }
    append_le(&mut material, flags as u64, 4);
    assert(material@ =~= key_material(
        ScriptInputs { script_sig: script_sig@, script_pubkey: script_pubkey@, witness: witness_view(witness), flags },
    ));
    sha256(material.as_slice())
}

impl ScriptCache {
    /// Whether the cache is in order: every entry is the verdict on inputs
    /// with its key, and the entries are no more than the cache was made
    /// for.
    pub closed spec fn wf(&self) -> bool {
        entries_sound(cache_entries(self.cache)) && entries_bounded(
            cache_entries(self.cache),
            cache_limit(self.cache),
        )
    }

    /// The number of verdicts that the cache holds.
    pub closed spec fn count(&self) -> nat {
        cache_entries(self.cache).dom().len()
    }

    /// A cache in order holds no more verdicts than it was made for.
    pub proof fn lemma_bounded(&self)
        requires
            self.wf(),
        ensures
            self.count() <= self.limit(),
    {
    }

    /// Whether the cache holds a verdict under the key of the inputs.
    pub closed spec fn holds(&self, i: ScriptInputs) -> bool {
        cache_entries(self.cache).contains_key(script_cache_key_spec(i))
    }

    /// The number of verdicts that the cache was made for.
    pub closed spec fn limit(&self) -> nat {
        cache_limit(self.cache)
    }

    /// A cache for `SCRIPT_CACHE_CAPACITY` verdicts, empty.
    pub fn new() -> (r: ScriptCache)
        ensures
            r.wf(),
            forall|i: ScriptInputs| !r.holds(i),
            r.count() == 0,
            r.limit() == SCRIPT_CACHE_CAPACITY,
    {
        let cache = lru_new(SCRIPT_CACHE_CAPACITY);
        assert(cache_entries(cache).dom() =~= Set::<Seq<u8>>::empty());
        ScriptCache { cache }
    }

    /// A cache for `capacity` verdicts, empty. A capacity of 0 counts as 1,
    /// one above `MAX_SCRIPT_CACHE_CAPACITY` as that.
    pub fn with_capacity(capacity: usize) -> (r: ScriptCache)
        ensures
            r.wf(),
            forall|i: ScriptInputs| !r.holds(i),
            r.count() == 0,
            r.limit() == bounded_capacity(capacity),
    {
        let bounded: usize = if capacity == 0 {
            1
        } else if capacity > MAX_SCRIPT_CACHE_CAPACITY {
            MAX_SCRIPT_CACHE_CAPACITY
        } else {
            capacity
        };
        let cache = lru_new(bounded);
        assert(cache_entries(cache).dom() =~= Set::<Seq<u8>>::empty());
        ScriptCache { cache }
    }

    /// The number of verdicts that the cache was made for.
    pub fn capacity(&self) -> (n: usize)
        ensures
            n == self.limit(),
    {
        lru_cap(&self.cache)
    }

    /// The number of verdicts that the cache holds.
    pub fn len(&self) -> (n: usize)
        ensures
            n == self.count(),
    {
        lru_len(&self.cache)
    }
}

/// Verifies an input as [`verify_script`] does, with the help of the cache.
///
/// Where the cache holds a verdict under the key of the inputs, that
/// verdict is the answer: it is the verdict on inputs with the same key.
/// Where it holds none, the scripts are run, the answer is exactly that of
/// [`verify_script`], and a verdict of `true` or `false` is put into the
/// cache; an error is not.
pub fn verify_script_cached(
    cache: &mut ScriptCache,
    script_sig: &ByteString,
    script_pubkey: &ByteString,
    witness: Option<&ByteString>,
    flags: u32,
) -> (r: Result<bool, ConsensusError>)
    requires
        old(cache).wf(),
    ensures
        final(cache).wf(),
        final(cache).limit() == old(cache).limit(),
        final(cache).count() <= final(cache).limit(),
        exists|i: ScriptInputs|
            #[trigger] script_cache_key_spec(i) == script_cache_key_spec(
                ScriptInputs {
                    script_sig: script_sig@,
                    script_pubkey: script_pubkey@,
                    witness: witness_view(witness),
                    flags,
                },
            ) && r == verdict(i),
        !old(cache).holds(
            ScriptInputs { script_sig: script_sig@, script_pubkey: script_pubkey@, witness: witness_view(witness), flags },
        ) ==> r == verify_spec(script_sig@, script_pubkey@, witness_view(witness), no_context()),
        r is Ok ==> final(cache).holds(
            ScriptInputs { script_sig: script_sig@, script_pubkey: script_pubkey@, witness: witness_view(witness), flags },
        ),
{
    let ghost given = ScriptInputs {
        script_sig: script_sig@,
        script_pubkey: script_pubkey@,
        witness: witness_view(witness),
        flags,
    };
    let key = compute_script_cache_key(script_sig, script_pubkey, witness, flags);
    match lru_peek(&cache.cache, &key) {
        Some(found) => {
            let answer = found.len() == 1 && found[0] == 1;
            proof {
                let entries = cache_entries(cache.cache);
                assert(entries.contains_key(key@));
                let (i, b) = choose|i: ScriptInputs, b: bool|
                    #[trigger] script_cache_key_spec(i) == key@ && verdict(i) == Ok::<bool, ConsensusError>(b)
                        && entries[key@] == #[trigger] verdict_bytes(b);
                assert(answer == b);
                assert(script_cache_key_spec(i) == script_cache_key_spec(given) && Ok::<bool, ConsensusError>(
                    answer,
                ) == verdict(i));
            }
            Ok(answer)
        },
        None => {
            let r = verify_script(script_sig, script_pubkey, witness, flags);
            assert(r == verdict(given));
            assert(script_cache_key_spec(given) == script_cache_key_spec(given));
            match r {
                Ok(answer) => {
                    let ghost before = cache_entries(cache.cache);
                    let mut stored: Vec<u8> = Vec::with_capacity(1);
                    stored.push(if answer { 1u8 } else { 0u8 });
                    assert(stored@ =~= verdict_bytes(answer));
                    lru_put(&mut cache.cache, key, stored);
                    proof {
                        let after = cache_entries(cache.cache);
                        assert forall|k: Seq<u8>| #[trigger] after.contains_key(k) implies exists|
                            i: ScriptInputs,
                            b: bool,
                        |
                            #[trigger] script_cache_key_spec(i) == k && verdict(i) == Ok::<bool, ConsensusError>(b)
                                && after[k] == #[trigger] verdict_bytes(b) by {
                            if k == key@ {
                                assert(script_cache_key_spec(given) == k && verdict(given) == Ok::<
                                    bool,
                                    ConsensusError,
                                >(answer) && after[k] == verdict_bytes(answer));
                            } else {
                                assert(before.contains_key(k));
                                let (i, b) = choose|i: ScriptInputs, b: bool|
                                    #[trigger] script_cache_key_spec(i) == k && verdict(i) == Ok::<
                                        bool,
                                        ConsensusError,
                                    >(b) && before[k] == #[trigger] verdict_bytes(b);
                                assert(script_cache_key_spec(i) == k && after[k] == verdict_bytes(b));
                            }
                        }
                    }
                },
                Err(_) => {},
            }
            r
        },
    }
}

/// The number of hash results that a cache holds unless told otherwise.
pub const HASH_CACHE_CAPACITY: usize = 5_000;

/// What the result of a hash opcode depends on: the element that is
/// hashed, and which of the two opcodes hashes it.
pub ghost struct HashInputs {
    pub data: Seq<u8>,
    pub hash160: bool,
}

/// The key of the inputs: the SHA-256 of the element followed by the opcode.
pub open spec fn hash_cache_key_spec(i: HashInputs) -> Seq<u8> {
    sha256_digest(i.data + seq![if i.hash160 { OP_HASH160 } else { OP_HASH256 }])
}

/// The result of the hash opcode.
pub open spec fn hash_result(i: HashInputs) -> Seq<u8> {
    if i.hash160 {
        hash160_spec(i.data)
    } else {
        double_sha256_spec(i.data)
    }
}

/// Whether every entry is the result for inputs with its key.
pub open spec fn hash_entries_sound(entries: Map<Seq<u8>, Seq<u8>>) -> bool {
    forall|k: Seq<u8>| #[trigger]
        entries.contains_key(k) ==> exists|i: HashInputs|
            #[trigger] hash_cache_key_spec(i) == k && hash_result(i) == entries[k]
}

/// A bounded cache of the results of the hash opcodes.
pub struct HashCache {
    cache: ResultCache,
}

/// The key of a hash opcode on `input`: the SHA-256 of the element
/// followed by the opcode.
pub fn compute_hash_cache_key(input: &[u8], op_hash160: bool) -> (key: [u8; 32])
    ensures
        key@ == hash_cache_key_spec((HashInputs { data: input@, hash160: op_hash160 })),
{
    let mut data = copy_bytes(input);
    data.push(if op_hash160 { 0xa9 } else { 0xaa });
    assert(data@ =~= input@ + seq![if op_hash160 { OP_HASH160 } else { OP_HASH256 }]);
    sha256(data.as_slice())
}

impl HashCache {
    /// Whether the cache is in order: every entry is the result for inputs
    /// with its key, and the entries are no more than the cache was made
    /// for.
    pub closed spec fn wf(&self) -> bool {
        hash_entries_sound(cache_entries(self.cache)) && entries_bounded(
            cache_entries(self.cache),
            cache_limit(self.cache),
        )
    }

    /// The number of results that the cache was made for.
    pub closed spec fn limit(&self) -> nat {
        cache_limit(self.cache)
    }

    /// The number of results that the cache holds.
    pub closed spec fn count(&self) -> nat {
        cache_entries(self.cache).dom().len()
    }

    /// A cache in order holds no more results than it was made for.
    pub proof fn lemma_bounded(&self)
        requires
            self.wf(),
        ensures
            self.count() <= self.limit(),
    {
    }

    /// Whether the cache holds a result under the key of the inputs.
    pub closed spec fn holds(&self, i: HashInputs) -> bool {
        cache_entries(self.cache).contains_key(hash_cache_key_spec(i))
    }

    /// A cache for `HASH_CACHE_CAPACITY` results, empty.
    pub fn new() -> (r: HashCache)
        ensures
            r.wf(),
            forall|i: HashInputs| !r.holds(i),
            r.count() == 0,
            r.limit() == HASH_CACHE_CAPACITY,
    {
        let cache = lru_new(HASH_CACHE_CAPACITY);
        assert(cache_entries(cache).dom() =~= Set::<Seq<u8>>::empty());
        HashCache { cache }
    }

    /// The number of results that the cache was made for.
    pub fn capacity(&self) -> (n: usize)
        ensures
            n == self.limit(),
    {
        lru_cap(&self.cache)
    }

    /// The number of results that the cache holds.
    pub fn len(&self) -> (n: usize)
        ensures
            n == self.count(),
    {
        lru_len(&self.cache)
    }
}

/// The result of a hash opcode on `input`, with the help of the cache:
/// RIPEMD-160 of SHA-256 where `op_hash160` is set, double SHA-256 where it
/// is not.
///
/// Where the cache holds a result under the key of the inputs, that result
/// is the answer: it is the result for inputs with the same key. Where it
/// holds none, the hash is computed, the answer is exactly the hash, and it
/// is put into the cache.
pub fn hash_opcode_cached(cache: &mut HashCache, input: &[u8], op_hash160: bool) -> (r: Vec<u8>)
    requires
        old(cache).wf(),
    ensures
        final(cache).wf(),
        final(cache).limit() == old(cache).limit(),
        final(cache).count() <= final(cache).limit(),
        exists|i: HashInputs|
            #[trigger] hash_cache_key_spec(i) == hash_cache_key_spec(
                (HashInputs { data: input@, hash160: op_hash160 }),
            ) && r@ == hash_result(i),
        !old(cache).holds((HashInputs { data: input@, hash160: op_hash160 })) ==> r@ == hash_result(
            (HashInputs { data: input@, hash160: op_hash160 }),
        ),
        final(cache).holds((HashInputs { data: input@, hash160: op_hash160 })),
{
    let ghost given = HashInputs { data: input@, hash160: op_hash160 };
    let key = compute_hash_cache_key(input, op_hash160);
    match lru_peek(&cache.cache, &key) {
        Some(found) => {
            proof {
                let entries = cache_entries(cache.cache);
                assert(entries.contains_key(key@));
                let i = choose|i: HashInputs| #[trigger] hash_cache_key_spec(i) == key@ && hash_result(i) == entries[key@];
                assert(hash_cache_key_spec(i) == hash_cache_key_spec(given) && found@ == hash_result(i));
            }
            found
        },
        None => {
            let result: Vec<u8> = if op_hash160 {
                copy_bytes(hash160(input).as_slice())
            } else {
                copy_bytes(double_sha256(input).as_slice())
            };
            assert(result@ == hash_result(given));
            assert(hash_cache_key_spec(given) == hash_cache_key_spec(given));
            let stored = copy_bytes(result.as_slice());
            let ghost before = cache_entries(cache.cache);
            lru_put(&mut cache.cache, key, stored);
            proof {
                let after = cache_entries(cache.cache);
                assert forall|k: Seq<u8>| #[trigger] after.contains_key(k) implies exists|i: HashInputs|
                    #[trigger] hash_cache_key_spec(i) == k && hash_result(i) == after[k] by {
                    if k == key@ {
                        assert(hash_cache_key_spec(given) == k && hash_result(given) == after[k]);
                    } else {
                        assert(before.contains_key(k));
                    }
                }
            }
            result
        },
    }
}

} // verus!
