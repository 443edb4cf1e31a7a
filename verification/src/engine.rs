//! The decryption engine: one run over a container for one configuration of
//! password, salt, cost parameters and nonce rule.
//!
//! A run parses the header, derives the key and decrypts the ciphertext. The
//! ciphertext is first tried as one block under the base nonce. If that does
//! not authenticate it is taken chunk by chunk, the nonce advancing from one
//! chunk to the next. Only the second chunk can tell whether the nonce rule
//! is the right one: where it fails under the active rule, the two other
//! rules are tried on it and the one that opens it is adopted. A later chunk
//! that fails ends the stream without failing the run.

use crate::codec::{secretbox_opened, Sodium, TAG_SIZE};
use crate::container::{
    base_nonce_of, chunk_len, ciphertext_of, next_chunk_len, well_formed, EncryptedContainer,
    CHUNK_SIZE, MAGIC_SIZE,
};
use crate::error::DecryptionError;
use crate::kdf::{derive_key, derived_key, wipe_key, CostParameters};
use crate::nonce::{advance, advanced, advanced_by, NonceRule};
use vstd::prelude::*;
use vstd::slice::slice_subrange;

verus! {

/// What a successful run yields.
#[derive(Debug)]
pub struct Decrypted {
    /// The plaintext of every chunk that authenticated, in order.
    pub plaintext: Vec<u8>,
    /// The nonce rule that the run ended with: the active rule, or the one
    /// adopted at the second chunk.
    pub rule: NonceRule,
    /// The number of ciphertext bytes that authenticated. Where it is less
    /// than the length of the ciphertext, the run stopped at a chunk that did
    /// not authenticate, or at a remainder too short to carry a tag.
    pub consumed: usize,
}

/// A [`Decrypted`] as a mathematical value.
pub struct Opening {
    pub plaintext: Seq<u8>,
    pub rule: NonceRule,
    pub consumed: nat,
}

impl View for Decrypted {
    type V = Opening;

    open spec fn view(&self) -> Opening {
        Opening { plaintext: self.plaintext@, rule: self.rule, consumed: self.consumed as nat }
    }
}

/// What to make of a stream that ends before the ciphertext does: of a
/// later chunk that does not authenticate, or of a remainder too short to
/// carry a tag.
#[derive(Clone, Copy, Debug, PartialEq, Eq, Structural)]
pub enum TruncationPolicy {
    /// The stream ends there; what was decrypted stands. A container may be
    /// padded, but damage to a later chunk passes unnoticed.
    Lenient,
    /// The run fails: every byte of the ciphertext must authenticate.
    Strict,
}

/// A run held to a policy on truncated streams.
pub open spec fn held_to(policy: TruncationPolicy, run: Result<Decrypted, DecryptionError>, ciphertext_len: nat) -> Result<Decrypted, DecryptionError> {
    match (policy, run) {
        (TruncationPolicy::Strict, Ok(decrypted)) => if decrypted.consumed < ciphertext_len {
            Err(DecryptionError::InvalidPassword)
        } else {
            run
        },
        _ => run,
    }
}

/// The two rules other than `active`, in the order in which they are tried.
pub open spec fn alternates(active: NonceRule) -> (NonceRule, NonceRule) {
    match active {
        NonceRule::LittleEndianIncrement => (
            NonceRule::BigEndianIncrement,
            NonceRule::TrailingCounterIncrement,
        ),
        NonceRule::BigEndianIncrement => (
            NonceRule::LittleEndianIncrement,
            NonceRule::TrailingCounterIncrement,
        ),
        NonceRule::TrailingCounterIncrement => (
            NonceRule::LittleEndianIncrement,
            NonceRule::BigEndianIncrement,
        ),
    }
}

/// The rule adopted for a second chunk that failed under `active`: the first
/// of the two other rules under which `chunk` opens with the base nonce
/// advanced once, or `None` where it opens under neither.
pub open spec fn resolved_rule(chunk: Seq<u8>, key: Seq<u8>, base: Seq<u8>, active: NonceRule) -> Option<NonceRule> {
    let (first, second) = alternates(active);
    if secretbox_opened(chunk, advanced(base, first), key) is Some {
        Some(first)
    } else if secretbox_opened(chunk, advanced(base, second), key) is Some {
        Some(second)
    } else {
        None
    }
}

/// The end of a stream at position `consumed`, with nothing more decrypted.
pub open spec fn stopped(rule: NonceRule, consumed: nat) -> Opening {
    Opening { plaintext: Seq::empty(), rule, consumed }
}

/// `rest` with `plaintext` put in front of what it decrypted.
pub open spec fn preceded(plaintext: Seq<u8>, rest: Opening) -> Opening {
    Opening { plaintext: plaintext + rest.plaintext, rule: rest.rule, consumed: rest.consumed }
}

/// What is decrypted from position `pos` of the ciphertext `ct` on, after at
/// least one chunk has authenticated: `nonce` is the nonce of the chunk at
/// `pos`, and `rule` the active rule.
pub open spec fn continued(
    ct: Seq<u8>,
    key: Seq<u8>,
    base: Seq<u8>,
    pos: nat,
    nonce: Seq<u8>,
    rule: NonceRule,
) -> Opening
    decreases ct.len() - pos,
{
    let size = chunk_len((ct.len() - pos) as nat);
    let chunk = ct.subrange(pos as int, (pos + size) as int);
    if pos >= ct.len() || size < TAG_SIZE {
        stopped(rule, pos)
    } else {
        match secretbox_opened(chunk, nonce, key) {
            Some(plaintext) => preceded(
                plaintext,
                continued(ct, key, base, pos + size, advanced(nonce, rule), rule),
            ),
            None => if pos == CHUNK_SIZE {
                match resolved_rule(chunk, key, base, rule) {
                    Some(adopted) => preceded(
                        secretbox_opened(chunk, advanced(base, adopted), key).unwrap(),
                        continued(
                            ct,
                            key,
                            base,
                            pos + size,
                            advanced(advanced(base, adopted), adopted),
                            adopted,
                        ),
                    ),
                    None => stopped(rule, pos),
                }
            } else {
                stopped(rule, pos)
            },
        }
    }
}

/// What the ciphertext `ct` decrypts to chunk by chunk, or `None` where the
/// first chunk does not authenticate or is too short to carry a tag.
pub open spec fn chunked(ct: Seq<u8>, key: Seq<u8>, base: Seq<u8>, rule: NonceRule) -> Option<Opening> {
    let size = chunk_len(ct.len());
    if size < TAG_SIZE {
        None
    } else {
        match secretbox_opened(ct.subrange(0, size as int), base, key) {
            Some(plaintext) => Some(
                preceded(plaintext, continued(ct, key, base, size, advanced(base, rule), rule)),
            ),
            None => None,
        }
    }
}

/// What the ciphertext `ct` decrypts to: as one block where it authenticates
/// as one, else chunk by chunk.
pub open spec fn opened_ciphertext(ct: Seq<u8>, key: Seq<u8>, base: Seq<u8>, rule: NonceRule) -> Option<Opening> {
    match secretbox_opened(ct, base, key) {
        Some(plaintext) => Some(Opening { plaintext, rule, consumed: ct.len() }),
        None => chunked(ct, key, base, rule),
    }
}

/// The outcome of one run of the engine over the bytes `data` of a
/// container.
pub open spec fn decryption_outcome(
    data: Seq<u8>,
    password: Seq<u8>,
    salt: Seq<u8>,
    params: CostParameters,
    rule: NonceRule,
) -> Result<Opening, DecryptionError> {
    if !well_formed(data) {
        Err(DecryptionError::InvalidFormat)
    } else {
        match derived_key(password, salt, params) {
            None => Err(DecryptionError::BadParameters),
            Some(key) => match opened_ciphertext(
                ciphertext_of(data),
                key,
                base_nonce_of(data),
                rule,
            ) {
                Some(opening) => Ok(opening),
                None => Err(DecryptionError::InvalidPassword),
            },
        }
    }
}

/// The result `run` of a run says what `outcome` says.
pub open spec fn reports(run: Result<Decrypted, DecryptionError>, outcome: Result<Opening, DecryptionError>) -> bool {
    match run {
        Ok(decrypted) => outcome == Ok::<Opening, DecryptionError>(decrypted@),
        Err(e) => outcome == Err::<Opening, DecryptionError>(e),
    }
}

/// The run failed with [`DecryptionError::InvalidPassword`].
pub open spec fn unauthenticated(run: Result<Decrypted, DecryptionError>) -> bool {
    match run {
        Err(DecryptionError::InvalidPassword) => true,
        _ => false,
    }
}

/// The chunks `parts` put one after the other.
pub open spec fn joined(parts: Seq<Seq<u8>>) -> Seq<u8>
    decreases parts.len(),
{
    if parts.len() == 0 {
        Seq::empty()
    } else {
        parts[0] + joined(parts.drop_first())
    }
}

/// The chunk with index `i` of the ciphertext `ct`: full chunks first, and
/// what is left as the last.
pub open spec fn chunk_at(ct: Seq<u8>, i: nat) -> Seq<u8> {
    ct.subrange(
        i * CHUNK_SIZE,
        if (i + 1) * CHUNK_SIZE <= ct.len() {
            (i + 1) * CHUNK_SIZE
        } else {
            ct.len() as int
        },
    )
}

/// The ciphertext `ct` holds the plaintext pieces `pieces`, one to a chunk:
/// there is at least one chunk, the last one is long enough to carry a tag,
/// and chunk `i` opens to `pieces[i]` under the base nonce advanced `i`
/// times.
pub open spec fn sealed_in_chunks(
    ct: Seq<u8>,
    key: Seq<u8>,
    base: Seq<u8>,
    rule: NonceRule,
    pieces: Seq<Seq<u8>>,
) -> bool {
    &&& pieces.len() >= 1
    &&& (pieces.len() - 1) * CHUNK_SIZE + TAG_SIZE <= ct.len() <= pieces.len() * CHUNK_SIZE
    &&& forall|i: nat|
        i < pieces.len() ==> secretbox_opened(#[trigger] chunk_at(ct, i), advanced_by(base, rule, i), key)
            == Some(pieces[i as int])
}

/// From chunk `i` on, a ciphertext that holds `pieces` decrypts to the
/// pieces from `i` on, under the rule it was sealed with, to its end.
proof fn lemma_sealed_chunks_continue(
    ct: Seq<u8>,
    key: Seq<u8>,
    base: Seq<u8>,
    rule: NonceRule,
    pieces: Seq<Seq<u8>>,
    i: nat,
)
    requires
        sealed_in_chunks(ct, key, base, rule, pieces),
        1 <= i <= pieces.len(),
    ensures
        continued(
            ct,
            key,
            base,
            if i * CHUNK_SIZE <= ct.len() {
                (i * CHUNK_SIZE) as nat
            } else {
                ct.len()
            },
            advanced_by(base, rule, i),
            rule,
        ) == (Opening { plaintext: joined(pieces.skip(i as int)), rule, consumed: ct.len() }),
    decreases pieces.len() - i,
{
    if i < pieces.len() {
        let pos = i * CHUNK_SIZE;
        let size = chunk_len((ct.len() - pos) as nat);
        assert(ct.subrange(pos as int, (pos + size) as int) == chunk_at(ct, i));
        lemma_sealed_chunks_continue(ct, key, base, rule, pieces, i + 1);
        let rest = pieces.skip(i as int);
        assert(rest[0] == pieces[i as int]);
        assert(rest.drop_first() =~= pieces.skip(i as int + 1));
    } else {
        assert(pieces.skip(i as int) =~= Seq::<Seq<u8>>::empty());
    }
}

/// Decrypting what was sealed gives it back. A ciphertext whose chunks hold
/// the pieces of a plaintext, each sealed under the nonce that the rule
/// gives it, decrypts to that plaintext, all of it, and the rule it was
/// sealed with is the rule the run ends with.
///
/// A ciphertext of several chunks that also authenticates as one block is
/// left out: it is taken as that one block.
pub proof fn lemma_sealed_chunks_decrypt(
    ct: Seq<u8>,
    key: Seq<u8>,
    base: Seq<u8>,
    rule: NonceRule,
    pieces: Seq<Seq<u8>>,
)
    requires
        sealed_in_chunks(ct, key, base, rule, pieces),
        pieces.len() > 1 ==> secretbox_opened(ct, base, key) is None,
    ensures
        opened_ciphertext(ct, key, base, rule) == Some(
            Opening { plaintext: joined(pieces), rule, consumed: ct.len() },
        ),
{
    let first = chunk_len(ct.len());
    assert(ct.subrange(0, first as int) == chunk_at(ct, 0));
    assert(advanced_by(base, rule, 0) == base);
    assert(pieces.drop_first() =~= pieces.skip(1));
    if pieces.len() == 1 {
        assert(chunk_at(ct, 0) =~= ct);
        assert(joined(pieces.drop_first()) =~= Seq::<u8>::empty());
        assert(joined(pieces) =~= pieces[0]);
    } else {
        assert(advanced_by(base, rule, 1) == advanced(advanced_by(base, rule, 0), rule));
        lemma_sealed_chunks_continue(ct, key, base, rule, pieces, 1);
    }
}

/// The second chunk settles the nonce rule. A ciphertext of several chunks
/// that was sealed under one rule and is decrypted with another as the
/// active rule decrypts to the same plaintext, and the run ends with the
/// rule it was sealed with, where the second chunk does not open under the
/// active rule and the rule it was sealed with is the one that the
/// resolution adopts.
pub proof fn lemma_sealing_rule_is_adopted(
    ct: Seq<u8>,
    key: Seq<u8>,
    base: Seq<u8>,
    sealed_with: NonceRule,
    active: NonceRule,
    pieces: Seq<Seq<u8>>,
)
    requires
        sealed_in_chunks(ct, key, base, sealed_with, pieces),
        pieces.len() > 1,
        secretbox_opened(ct, base, key) is None,
        secretbox_opened(chunk_at(ct, 1), advanced(base, active), key) is None,
        resolved_rule(chunk_at(ct, 1), key, base, active) == Some(sealed_with),
    ensures
        opened_ciphertext(ct, key, base, active) == Some(
            Opening { plaintext: joined(pieces), rule: sealed_with, consumed: ct.len() },
        ),
{
    let first = chunk_len(ct.len());
    assert(ct.subrange(0, first as int) == chunk_at(ct, 0));
    assert(advanced_by(base, sealed_with, 0) == base);
    assert(advanced_by(base, sealed_with, 1) == advanced(base, sealed_with));
    assert(advanced_by(base, sealed_with, 2) == advanced(advanced(base, sealed_with), sealed_with));
    let second = chunk_len((ct.len() - CHUNK_SIZE) as nat);
    assert(ct.subrange(CHUNK_SIZE as int, (CHUNK_SIZE + second) as int) == chunk_at(ct, 1));
    lemma_sealed_chunks_continue(ct, key, base, sealed_with, pieces, 2);
    let after = continued(
        ct,
        key,
        base,
        (CHUNK_SIZE + second) as nat,
        advanced_by(base, sealed_with, 2),
        sealed_with,
    );
    assert(after == (Opening {
        plaintext: joined(pieces.skip(2)),
        rule: sealed_with,
        consumed: ct.len(),
    }));
    assert(continued(ct, key, base, CHUNK_SIZE as nat, advanced(base, active), active)
        == preceded(pieces[1], after));
    let rest = pieces.drop_first();
    assert(rest[0] == pieces[1]);
    assert(rest.drop_first() =~= pieces.skip(2));
    assert(joined(rest) == pieces[1] + joined(pieces.skip(2)));
    assert(joined(pieces) == pieces[0] + joined(rest));
    assert(preceded(pieces[0], preceded(pieces[1], after)).plaintext =~= joined(pieces));
}

/// Decrypting a container that was sealed with a configuration, with the
/// same configuration, gives the plaintext back: where the key is derived
/// from `password` and `salt` at the valid cost `params`, and the chunks of
/// the container hold `pieces` under that key, the run yields `pieces`
/// joined.
///
/// A container of several chunks whose whole ciphertext also authenticates
/// as one block is left out.
pub proof fn lemma_round_trip(
    data: Seq<u8>,
    password: Seq<u8>,
    salt: Seq<u8>,
    params: CostParameters,
    rule: NonceRule,
    pieces: Seq<Seq<u8>>,
)
    requires
        well_formed(data),
        params.valid(),
        sealed_in_chunks(
            ciphertext_of(data),
            derived_key(password, salt, params).unwrap(),
            base_nonce_of(data),
            rule,
            pieces,
        ),
        pieces.len() > 1 ==> secretbox_opened(
            ciphertext_of(data),
            base_nonce_of(data),
            derived_key(password, salt, params).unwrap(),
        ) is None,
    ensures
        decryption_outcome(data, password, salt, params, rule) == Ok::<Opening, DecryptionError>(
            Opening { plaintext: joined(pieces), rule, consumed: ciphertext_of(data).len() },
        ),
{
    lemma_sealed_chunks_decrypt(
        ciphertext_of(data),
        derived_key(password, salt, params).unwrap(),
        base_nonce_of(data),
        rule,
        pieces,
    );
}

/// Input whose first byte is not that of the magic tag is no container:
/// changing the first byte of a container makes every run fail with
/// [`DecryptionError::InvalidFormat`], whatever the password, the salt, the
/// cost and the nonce rule.
pub proof fn lemma_changed_magic_is_rejected(
    data: Seq<u8>,
    byte: u8,
    password: Seq<u8>,
    salt: Seq<u8>,
    params: CostParameters,
    rule: NonceRule,
)
    requires
        well_formed(data),
        byte != data[0],
    ensures
        !well_formed(data.update(0, byte)),
        decryption_outcome(data.update(0, byte), password, salt, params, rule) == Err::<
            Opening,
            DecryptionError,
        >(DecryptionError::InvalidFormat),
{
    let changed = data.update(0, byte);
    assert(data.subrange(0, MAGIC_SIZE as int)[0] == data[0]);
    assert(changed.subrange(0, MAGIC_SIZE as int)[0] == byte);
}

/// A ciphertext of at most one full chunk is one chunk: it is never split,
/// and it decrypts to what it opens to as a whole under the base nonce. In
/// particular a ciphertext of exactly [`CHUNK_SIZE`] bytes is one full
/// chunk, with no empty chunk behind it.
pub proof fn lemma_one_chunk(ct: Seq<u8>, key: Seq<u8>, base: Seq<u8>, rule: NonceRule)
    requires
        ct.len() <= CHUNK_SIZE,
    ensures
        chunk_len(ct.len()) == ct.len(),
        opened_ciphertext(ct, key, base, rule) == match secretbox_opened(ct, base, key) {
            Some(plaintext) => Some(Opening { plaintext, rule, consumed: ct.len() }),
            None => None,
        },
{
    assert(ct.subrange(0, ct.len() as int) =~= ct);
}

/// The two rules other than `active`, in the order in which they are tried.
pub fn other_rules(active: NonceRule) -> (others: (NonceRule, NonceRule))
    ensures
        others == alternates(active),
{
    match active {
        NonceRule::LittleEndianIncrement => (
            NonceRule::BigEndianIncrement,
            NonceRule::TrailingCounterIncrement,
        ),
        NonceRule::BigEndianIncrement => (
            NonceRule::LittleEndianIncrement,
            NonceRule::TrailingCounterIncrement,
        ),
        NonceRule::TrailingCounterIncrement => (
            NonceRule::LittleEndianIncrement,
            NonceRule::BigEndianIncrement,
        ),
    }
}

/// Finds the nonce rule of a stream whose second chunk failed under the
/// `active` rule. The two other rules are tried on `chunk`, each with the
/// base nonce advanced once under it. The first that opens the chunk is
/// returned with the plaintext of the chunk.
pub fn resolve_rule(
    sodium: &Sodium,
    chunk: &[u8],
    key: &[u8; 32],
    base: &[u8; 24],
    active: NonceRule,
) -> (found: Option<(NonceRule, Vec<u8>)>)
    ensures
        match found {
            Some((adopted, plaintext)) => resolved_rule(chunk@, key@, base@, active) == Some(adopted)
                && secretbox_opened(chunk@, advanced(base@, adopted), key@) == Some(plaintext@),
            None => resolved_rule(chunk@, key@, base@, active) is None,
        },
{
    let (first, second) = other_rules(active);
    let nonce = advance(base, first);
    if let Ok(plaintext) = sodium.open(chunk, key, &nonce) {
        return Some((first, plaintext));
    }
    let nonce = advance(base, second);
    if let Ok(plaintext) = sodium.open(chunk, key, &nonce) {
        return Some((second, plaintext));
    }
    None
}

/// Decrypts the ciphertext of a parsed container under a derived key.
///
/// Fails with [`DecryptionError::InvalidPassword`] where neither the whole
/// ciphertext nor its first chunk authenticates.
pub fn decrypt_chunks(
    sodium: &Sodium,
    container: &EncryptedContainer,
    key: &[u8; 32],
    rule: NonceRule,
) -> (run: Result<Decrypted, DecryptionError>)
    ensures
        match run {
            Ok(decrypted) => opened_ciphertext(
                container.ciphertext_bytes(),
                key@,
                container.nonce_bytes(),
                rule,
            ) == Some(decrypted@),
            Err(e) => e is InvalidPassword && opened_ciphertext(
                container.ciphertext_bytes(),
                key@,
                container.nonce_bytes(),
                rule,
            ) is None,
        },
{
    let ct = container.ciphertext();
    let base = container.base_nonce();
    if let Ok(plaintext) = sodium.open(ct, key, base) {
        return Ok(Decrypted { plaintext, rule, consumed: ct.len() });
    }
    let first = next_chunk_len(ct.len());
    if first < TAG_SIZE {
        return Err(DecryptionError::InvalidPassword);
    }
    let mut out = match sodium.open(slice_subrange(ct, 0, first), key, base) {
        Ok(plaintext) => plaintext,
        Err(e) => {
            return Err(e);
        },
    };
    let ghost goal = preceded(out@, continued(ct@, key@, base@, first as nat, advanced(base@, rule), rule));
    let mut pos = first;
    let mut nonce = advance(base, rule);
    let mut active = rule;
    while pos < ct.len()
        invariant
            pos <= ct.len(),
            goal == preceded(out@, continued(ct@, key@, base@, pos as nat, nonce@, active)),
        ensures
            goal == preceded(out@, stopped(active, pos as nat)),
        decreases ct.len() - pos,
    {
        let size = next_chunk_len(ct.len() - pos);
        if size < TAG_SIZE {
            break ;
        }
        let chunk = slice_subrange(ct, pos, pos + size);
        let ghost rest = continued(ct@, key@, base@, pos as nat, nonce@, active);
        let ghost before = out@;
        match sodium.open(chunk, key, &nonce) {
            Ok(plaintext) => {
                let mut plaintext = plaintext;
                let ghost piece = plaintext@;
                out.append(&mut plaintext);
                nonce = advance(&nonce, active);
                proof {
                    let next = continued(ct@, key@, base@, (pos + size) as nat, nonce@, active);
                    assert(rest == preceded(piece, next));
                    assert(preceded(before, preceded(piece, next)).plaintext =~= preceded(
                        out@,
                        next,
                    ).plaintext);
                }
            },
            Err(_) => {
                if pos != CHUNK_SIZE {
                    break ;
                }
                match resolve_rule(sodium, chunk, key, base, active) {
                    Some((adopted, plaintext)) => {
                        let mut plaintext = plaintext;
                        let ghost piece = plaintext@;
                        out.append(&mut plaintext);
                        active = adopted;
                        let second = advance(base, adopted);
                        nonce = advance(&second, adopted);
                        proof {
                            let next = continued(
                                ct@,
                                key@,
                                base@,
                                (pos + size) as nat,
                                nonce@,
                                active,
                            );
                            assert(rest == preceded(piece, next));
                            assert(preceded(before, preceded(piece, next)).plaintext =~= preceded(
                                out@,
                                next,
                            ).plaintext);
                        }
                    },
                    None => {
                        break ;
                    },
                }
            },
        }
        pos = pos + size;
    }
    proof {
        assert(preceded(out@, stopped(active, pos as nat)).plaintext =~= out@);
    }
    Ok(Decrypted { plaintext: out, rule: active, consumed: pos })
}

/// Holds a run to a policy on truncated streams. Under
/// [`TruncationPolicy::Lenient`] the run stands as it is. Under
/// [`TruncationPolicy::Strict`] a run that stopped before the end of the
/// ciphertext, `ciphertext_len` bytes long, fails with
/// [`DecryptionError::InvalidPassword`] and gives no plaintext.
pub fn apply_policy(
    policy: TruncationPolicy,
    run: Result<Decrypted, DecryptionError>,
    ciphertext_len: usize,
) -> (held: Result<Decrypted, DecryptionError>)
    ensures
        held == held_to(policy, run, ciphertext_len as nat),
{
    match policy {
        TruncationPolicy::Lenient => run,
        TruncationPolicy::Strict => match run {
            Ok(decrypted) => if decrypted.consumed < ciphertext_len {
                Err(DecryptionError::InvalidPassword)
            } else {
                Ok(decrypted)
            },
            Err(e) => Err(e),
        },
    }
}

/// The first two steps of a run: the header is parsed and the key derived.
fn prepare<'a>(data: &'a [u8], password: &[u8], salt: &[u8], params: &CostParameters) -> (ready: Result<(EncryptedContainer<'a>, [u8; 32]), DecryptionError>)
    ensures
        match ready {
            Ok((container, key)) => well_formed(data@) && container.nonce_bytes() == base_nonce_of(
                data@,
            ) && container.ciphertext_bytes() == ciphertext_of(data@) && derived_key(
                password@,
                salt@,
                *params,
            ) == Some(key@),
            Err(e) => if well_formed(data@) {
                e is BadParameters && derived_key(password@, salt@, *params) is None
            } else {
                e is InvalidFormat
            },
        },
{
    let container = match EncryptedContainer::parse(data) {
        Ok(container) => container,
        Err(e) => {
            return Err(e);
        },
    };
    match derive_key(password, salt, params) {
        Some(key) => Ok((container, key)),
        None => Err(DecryptionError::BadParameters),
    }
}

/// Runs the engine over the bytes of a container: parses the header, derives
/// the key from `password`, `salt` and `params`, and decrypts the
/// ciphertext, starting with `rule` as the active nonce rule.
///
/// - Input that is no container fails with
///   [`DecryptionError::InvalidFormat`].
/// - Cost parameters at which no key can be derived fail with
///   [`DecryptionError::BadParameters`].
/// - A ciphertext that does not authenticate in its whole nor in its first
///   chunk fails with [`DecryptionError::InvalidPassword`].
pub fn decrypt_container_with(
    sodium: &Sodium,
    data: &[u8],
    password: &[u8],
    salt: &[u8],
    params: &CostParameters,
    rule: NonceRule,
) -> (run: Result<Decrypted, DecryptionError>)
    ensures
        reports(run, decryption_outcome(data@, password@, salt@, *params, rule)),
{
    let (container, mut key) = match prepare(data, password, salt, params) {
        Ok(ready) => ready,
        Err(e) => {
            return Err(e);
        },
    };
    let run = decrypt_chunks(sodium, &container, &key, rule);
    wipe_key(&mut key);
    run
}

/// Runs the engine as [`decrypt_container_with`] does, initialising the
/// sodium library itself once the key is derived. Where the library cannot
/// be initialised, a run that got that far fails with
/// [`DecryptionError::InvalidPassword`].
pub fn decrypt_container(
    data: &[u8],
    password: &[u8],
    salt: &[u8],
    params: &CostParameters,
    rule: NonceRule,
) -> (run: Result<Decrypted, DecryptionError>)
    ensures
        reports(run, decryption_outcome(data@, password@, salt@, *params, rule)) || (well_formed(
            data@,
        ) && derived_key(password@, salt@, *params) is Some && unauthenticated(run)),
{
    let (container, mut key) = match prepare(data, password, salt, params) {
        Ok(ready) => ready,
        Err(e) => {
            return Err(e);
        },
    };
    let run = match Sodium::init() {
        Some(sodium) => decrypt_chunks(&sodium, &container, &key, rule),
        None => Err(DecryptionError::InvalidPassword),
    };
    wipe_key(&mut key);
    run
}

} // verus!
