//! The recovery search: which configurations are tried for a password, and
//! in which order, until one decrypts the container.
//!
//! For each candidate password the salt as given is tried first. With
//! `auto` set, the search goes on with the empty salt, the password itself
//! as salt, the salt string read once more (as base64 whatever its length),
//! and a few common salts, all at the canonical cost; then with the salt as
//! given at a few other costs.
//! At another cost only the first chunk is opened at first, and the whole
//! container is decrypted where that chunk authenticates. Passwords are
//! tried in the order given, and the search ends at the first configuration
//! that works.

use crate::codec::{secretbox_opened, Sodium};
use crate::container::{
    base_nonce_of, chunk_len, ciphertext_of, next_chunk_len, well_formed, EncryptedContainer,
};
use crate::engine::{
    decrypt_chunks, lemma_changed_magic_is_rejected, opened_ciphertext, Decrypted, Opening,
};
use crate::error::DecryptionError;
use crate::kdf::{canonical_cost, derive_key, derived_key, wipe_key, CostParameters};
use crate::nonce::NonceRule;
use crate::salt::{decode_salt, decoded_salt, interpret_salt, interpreted_salt};
use vstd::prelude::*;
use vstd::slice::{slice_subrange, slice_to_vec};
use vstd::string::StringSliceAdditionalSpecFns;
use vstd::utf8::encode_utf8;

verus! {

/// One configuration of the search: a salt, a cost, and whether the first
/// chunk is opened alone before the container is decrypted.
#[derive(Debug)]
pub struct Configuration {
    pub salt: Vec<u8>,
    pub params: CostParameters,
    pub probe_first: bool,
}

/// A [`Configuration`] as a mathematical value.
pub struct ConfigurationView {
    pub salt: Seq<u8>,
    pub params: CostParameters,
    pub probe_first: bool,
}

impl View for Configuration {
    type V = ConfigurationView;

    open spec fn view(&self) -> ConfigurationView {
        ConfigurationView { salt: self.salt@, params: self.params, probe_first: self.probe_first }
    }
}

/// The configuration that decrypted a container for a password.
#[derive(Debug)]
pub struct Found {
    /// The position of the configuration in the search order of the
    /// password.
    pub configuration: usize,
    /// The salt that worked.
    pub salt: Vec<u8>,
    /// The cost that worked.
    pub params: CostParameters,
    /// What was decrypted.
    pub decrypted: Decrypted,
}

/// A [`Found`] as a mathematical value.
pub struct FoundView {
    pub configuration: nat,
    pub salt: Seq<u8>,
    pub params: CostParameters,
    pub opening: Opening,
}

impl View for Found {
    type V = FoundView;

    open spec fn view(&self) -> FoundView {
        FoundView {
            configuration: self.configuration as nat,
            salt: self.salt@,
            params: self.params,
            opening: self.decrypted@,
        }
    }
}

/// The password that decrypted a container, and how.
#[derive(Debug)]
pub struct Recovered {
    /// The position of the password in the list of candidates.
    pub password_index: usize,
    /// The configuration that worked for it.
    pub found: Found,
}

/// A [`Recovered`] as a mathematical value.
pub struct RecoveredView {
    pub password_index: nat,
    pub found: FoundView,
}

impl View for Recovered {
    type V = RecoveredView;

    open spec fn view(&self) -> RecoveredView {
        RecoveredView { password_index: self.password_index as nat, found: self.found@ }
    }
}

/// How a search ended.
#[derive(Debug)]
pub struct SearchReport {
    /// The number of candidate passwords that were tried.
    pub attempts: usize,
    /// The password and configuration that worked, or why there is none:
    /// [`DecryptionError::InvalidFormat`] for input that is no container,
    /// [`DecryptionError::InvalidPassword`] where every candidate failed.
    pub outcome: Result<Recovered, DecryptionError>,
}

/// A [`SearchReport`] as a mathematical value.
pub struct ReportView {
    pub attempts: nat,
    pub outcome: Result<RecoveredView, DecryptionError>,
}

impl View for SearchReport {
    type V = ReportView;

    open spec fn view(&self) -> ReportView {
        ReportView {
            attempts: self.attempts as nat,
            outcome: match self.outcome {
                Ok(recovered) => Ok(recovered@),
                Err(e) => Err(e),
            },
        }
    }
}

/// A configuration at the canonical cost, decrypted without a probe.
pub open spec fn plain(salt: Seq<u8>) -> ConfigurationView {
    ConfigurationView { salt, params: canonical_cost(), probe_first: false }
}

/// A configuration at another cost, probed on the first chunk.
pub open spec fn probing(salt: Seq<u8>, log2_n: u8, r: u32, p: u32) -> ConfigurationView {
    ConfigurationView { salt, params: CostParameters { log2_n, r, p }, probe_first: true }
}

/// The UTF-8 bytes of an optional salt string.
pub open spec fn salt_text(salt: Option<&str>) -> Option<Seq<u8>> {
    match salt {
        Some(s) => Some(s.spec_bytes()),
        None => None,
    }
}

/// The salt as given: the salt string decoded, or the empty salt where no
/// string was supplied.
pub open spec fn direct_salt(salt: Option<Seq<u8>>) -> Seq<u8> {
    match salt {
        Some(text) => decoded_salt(text),
        None => Seq::empty(),
    }
}

/// The salts tried after the salt as given: the empty salt, the password,
/// the salt string read with base64 tried at any length (where a string was
/// supplied), and four common salts.
pub open spec fn salt_variations(password: Seq<u8>, salt: Option<Seq<u8>>) -> Seq<ConfigurationView> {
    seq![plain(Seq::empty()), plain(password)] + (match salt {
        Some(text) => seq![plain(interpreted_salt(text, 0))],
        None => Seq::empty(),
    }) + seq![
        plain("rclone".spec_bytes()),
        plain("default".spec_bytes()),
        plain(Seq::empty()),
        plain("salt".spec_bytes()),
    ]
}

/// The costs tried, with the salt as given, once the salts are exhausted.
pub open spec fn cost_variations(salt: Option<Seq<u8>>) -> Seq<ConfigurationView> {
    seq![
        probing(direct_salt(salt), 15, 8, 1),
        probing(direct_salt(salt), 16, 8, 1),
        probing(direct_salt(salt), 13, 8, 1),
        probing(direct_salt(salt), 12, 8, 1),
    ]
}

/// The configurations tried for a password, in order.
pub open spec fn configurations(password: Seq<u8>, salt: Option<Seq<u8>>, auto: bool) -> Seq<ConfigurationView> {
    if auto {
        seq![plain(direct_salt(salt))] + salt_variations(password, salt) + cost_variations(salt)
    } else {
        seq![plain(direct_salt(salt))]
    }
}

/// The first chunk of a ciphertext.
pub open spec fn first_chunk(ct: Seq<u8>) -> Seq<u8> {
    ct.subrange(0, chunk_len(ct.len()) as int)
}

/// What one configuration decrypts the ciphertext `ct` to under the base
/// nonce `base`, or `None` where the configuration does not work: no key
/// can be derived at its cost, its probe of the first chunk fails, or the
/// ciphertext does not authenticate.
pub open spec fn attempted(ct: Seq<u8>, base: Seq<u8>, password: Seq<u8>, configuration: ConfigurationView) -> Option<Opening> {
    match derived_key(password, configuration.salt, configuration.params) {
        None => None,
        Some(key) => if configuration.probe_first && secretbox_opened(first_chunk(ct), base, key)
            is None {
            None
        } else {
            opened_ciphertext(ct, key, base, NonceRule::LittleEndianIncrement)
        },
    }
}

/// The position of the first configuration at or after `from` that works.
pub open spec fn first_working(
    ct: Seq<u8>,
    base: Seq<u8>,
    password: Seq<u8>,
    list: Seq<ConfigurationView>,
    from: nat,
) -> Option<nat>
    decreases list.len() - from,
{
    if from >= list.len() {
        None
    } else if attempted(ct, base, password, list[from as int]) is Some {
        Some(from)
    } else {
        first_working(ct, base, password, list, from + 1)
    }
}

/// What the search finds for one password.
pub open spec fn password_outcome(
    ct: Seq<u8>,
    base: Seq<u8>,
    password: Seq<u8>,
    salt: Option<Seq<u8>>,
    auto: bool,
) -> Option<FoundView> {
    let list = configurations(password, salt, auto);
    match first_working(ct, base, password, list, 0) {
        Some(i) => Some(
            FoundView {
                configuration: i,
                salt: list[i as int].salt,
                params: list[i as int].params,
                opening: attempted(ct, base, password, list[i as int]).unwrap(),
            },
        ),
        None => None,
    }
}

/// The position of the first password at or after `from` for which the
/// search finds a configuration.
pub open spec fn first_password(
    ct: Seq<u8>,
    base: Seq<u8>,
    passwords: Seq<Seq<u8>>,
    salt: Option<Seq<u8>>,
    auto: bool,
    from: nat,
) -> Option<nat>
    decreases passwords.len() - from,
{
    if from >= passwords.len() {
        None
    } else if password_outcome(ct, base, passwords[from as int], salt, auto) is Some {
        Some(from)
    } else {
        first_password(ct, base, passwords, salt, auto, from + 1)
    }
}

/// The report of a search in which every candidate failed.
pub open spec fn exhausted(candidates: nat) -> ReportView {
    ReportView { attempts: candidates, outcome: Err(DecryptionError::InvalidPassword) }
}

/// How the search over the bytes `data` of a container ends for a list of
/// candidate passwords.
pub open spec fn search_outcome(data: Seq<u8>, passwords: Seq<Seq<u8>>, salt: Option<Seq<u8>>, auto: bool) -> ReportView {
    let ct = ciphertext_of(data);
    let base = base_nonce_of(data);
    if !well_formed(data) {
        ReportView { attempts: 0, outcome: Err(DecryptionError::InvalidFormat) }
    } else {
        match first_password(ct, base, passwords, salt, auto, 0) {
            Some(i) => ReportView {
                attempts: i + 1,
                outcome: Ok(
                    RecoveredView {
                        password_index: i,
                        found: password_outcome(ct, base, passwords[i as int], salt, auto).unwrap(),
                    },
                ),
            },
            None => exhausted(passwords.len()),
        }
    }
}

/// The UTF-8 bytes of each password of a list.
pub open spec fn password_bytes(passwords: Seq<String>) -> Seq<Seq<u8>> {
    Seq::new(passwords.len(), |i: int| encode_utf8(passwords[i]@))
}

/// The views of a list of configurations.
pub open spec fn views(list: Seq<Configuration>) -> Seq<ConfigurationView> {
    Seq::new(list.len(), |i: int| list[i]@)
}

/// The first configuration at or after `from` that works does work, and
/// none between `from` and it does.
proof fn lemma_first_working_is_least(
    ct: Seq<u8>,
    base: Seq<u8>,
    password: Seq<u8>,
    list: Seq<ConfigurationView>,
    from: nat,
)
    ensures
        match first_working(ct, base, password, list, from) {
            Some(i) => from <= i < list.len() && attempted(ct, base, password, list[i as int])
                is Some && forall|j: nat|
                from <= j < i ==> (#[trigger] attempted(ct, base, password, list[j as int]))
                    is None,
            None => forall|j: nat|
                from <= j < list.len() ==> (#[trigger] attempted(ct, base, password, list[j as int]))
                    is None,
        },
    decreases list.len() - from,
{
    if from < list.len() && attempted(ct, base, password, list[from as int]) is None {
        lemma_first_working_is_least(ct, base, password, list, from + 1);
    }
}

/// The configurations of a password are tried in order: the one that the
/// search finds is the first in the order that works, and where the search
/// finds none, none works.
pub proof fn lemma_found_configuration_is_first(
    ct: Seq<u8>,
    base: Seq<u8>,
    password: Seq<u8>,
    salt: Option<Seq<u8>>,
    auto: bool,
)
    ensures
        match password_outcome(ct, base, password, salt, auto) {
            Some(found) => {
                let list = configurations(password, salt, auto);
                &&& found.configuration < list.len()
                &&& found.salt == list[found.configuration as int].salt
                &&& found.params == list[found.configuration as int].params
                &&& attempted(ct, base, password, list[found.configuration as int]) == Some(
                    found.opening,
                )
                &&& forall|j: nat|
                    j < found.configuration ==> (#[trigger] attempted(
                        ct,
                        base,
                        password,
                        list[j as int],
                    )) is None
            },
            None => forall|j: nat|
                j < configurations(password, salt, auto).len() ==> (#[trigger] attempted(
                    ct,
                    base,
                    password,
                    configurations(password, salt, auto)[j as int],
                )) is None,
        },
{
    lemma_first_working_is_least(ct, base, password, configurations(password, salt, auto), 0);
}

/// The first password at or after `from` that works does work, and none
/// between `from` and it does.
proof fn lemma_first_password_is_least(
    ct: Seq<u8>,
    base: Seq<u8>,
    passwords: Seq<Seq<u8>>,
    salt: Option<Seq<u8>>,
    auto: bool,
    from: nat,
)
    ensures
        match first_password(ct, base, passwords, salt, auto, from) {
            Some(i) => from <= i < passwords.len() && password_outcome(
                ct,
                base,
                passwords[i as int],
                salt,
                auto,
            ) is Some && forall|j: nat|
                from <= j < i ==> (#[trigger] password_outcome(
                    ct,
                    base,
                    passwords[j as int],
                    salt,
                    auto,
                )) is None,
            None => forall|j: nat|
                from <= j < passwords.len() ==> (#[trigger] password_outcome(
                    ct,
                    base,
                    passwords[j as int],
                    salt,
                    auto,
                )) is None,
        },
    decreases passwords.len() - from,
{
    if from < passwords.len() && password_outcome(ct, base, passwords[from as int], salt, auto)
        is None {
        lemma_first_password_is_least(ct, base, passwords, salt, auto, from + 1);
    }
}

/// The passwords are tried in order and none is skipped: a search that
/// reports a password has tried every password before it in vain, and that
/// password only after them; a search over a container that reports none
/// has tried them all in vain.
pub proof fn lemma_reported_password_is_first(
    data: Seq<u8>,
    passwords: Seq<Seq<u8>>,
    salt: Option<Seq<u8>>,
    auto: bool,
)
    requires
        well_formed(data),
    ensures
        match search_outcome(data, passwords, salt, auto).outcome {
            Ok(recovered) => {
                &&& recovered.password_index < passwords.len()
                &&& search_outcome(data, passwords, salt, auto).attempts == recovered.password_index
                    + 1
                &&& password_outcome(
                    ciphertext_of(data),
                    base_nonce_of(data),
                    passwords[recovered.password_index as int],
                    salt,
                    auto,
                ) == Some(recovered.found)
                &&& forall|j: nat|
                    j < recovered.password_index ==> (#[trigger] password_outcome(
                        ciphertext_of(data),
                        base_nonce_of(data),
                        passwords[j as int],
                        salt,
                        auto,
                    )) is None
            },
            Err(e) => {
                &&& e is InvalidPassword
                &&& search_outcome(data, passwords, salt, auto).attempts == passwords.len()
                &&& forall|j: nat|
                    j < passwords.len() ==> (#[trigger] password_outcome(
                        ciphertext_of(data),
                        base_nonce_of(data),
                        passwords[j as int],
                        salt,
                        auto,
                    )) is None
            },
        },
{
    lemma_first_password_is_least(
        ciphertext_of(data),
        base_nonce_of(data),
        passwords,
        salt,
        auto,
        0,
    );
}

/// Where the passwords from `from` up to `i` all fail and password `i`
/// works, `i` is the first password at or after `from` that works.
proof fn lemma_first_password_from(
    ct: Seq<u8>,
    base: Seq<u8>,
    passwords: Seq<Seq<u8>>,
    salt: Option<Seq<u8>>,
    auto: bool,
    from: nat,
    i: nat,
)
    requires
        from <= i < passwords.len(),
        password_outcome(ct, base, passwords[i as int], salt, auto) is Some,
        forall|j: nat|
            from <= j < i ==> (#[trigger] password_outcome(ct, base, passwords[j as int], salt, auto))
                is None,
    ensures
        first_password(ct, base, passwords, salt, auto, from) == Some(i),
    decreases i - from,
{
    if from < i {
        assert(password_outcome(ct, base, passwords[from as int], salt, auto) is None);
        lemma_first_password_from(ct, base, passwords, salt, auto, from + 1, i);
    }
}

/// Where every password from `from` on fails, none at or after `from`
/// works.
proof fn lemma_no_password_from(
    ct: Seq<u8>,
    base: Seq<u8>,
    passwords: Seq<Seq<u8>>,
    salt: Option<Seq<u8>>,
    auto: bool,
    from: nat,
)
    requires
        forall|j: nat|
            from <= j < passwords.len() ==> (#[trigger] password_outcome(
                ct,
                base,
                passwords[j as int],
                salt,
                auto,
            )) is None,
    ensures
        first_password(ct, base, passwords, salt, auto, from) is None,
    decreases passwords.len() - from,
{
    if from < passwords.len() {
        assert(password_outcome(ct, base, passwords[from as int], salt, auto) is None);
        lemma_no_password_from(ct, base, passwords, salt, auto, from + 1);
    }
}

/// The search ends at the first password that works: where password `i`
/// decrypts the container and no password before it does, the search
/// reports password `i` after `i + 1` attempts, whatever follows it in the
/// list.
pub proof fn lemma_search_ends_at_first_success(
    data: Seq<u8>,
    passwords: Seq<Seq<u8>>,
    salt: Option<Seq<u8>>,
    auto: bool,
    i: nat,
)
    requires
        well_formed(data),
        i < passwords.len(),
        password_outcome(ciphertext_of(data), base_nonce_of(data), passwords[i as int], salt, auto)
            is Some,
        forall|j: nat|
            j < i ==> (#[trigger] password_outcome(
                ciphertext_of(data),
                base_nonce_of(data),
                passwords[j as int],
                salt,
                auto,
            )) is None,
    ensures
        search_outcome(data, passwords, salt, auto) == (ReportView {
            attempts: i + 1,
            outcome: Ok(
                RecoveredView {
                    password_index: i,
                    found: password_outcome(
                        ciphertext_of(data),
                        base_nonce_of(data),
                        passwords[i as int],
                        salt,
                        auto,
                    ).unwrap(),
                },
            ),
        }),
{
    lemma_first_password_from(
        ciphertext_of(data),
        base_nonce_of(data),
        passwords,
        salt,
        auto,
        0,
        i,
    );
}

/// The search skips no password: where no password of the list decrypts
/// the container, the search fails only after it has tried them all.
pub proof fn lemma_search_exhausts(data: Seq<u8>, passwords: Seq<Seq<u8>>, salt: Option<Seq<u8>>, auto: bool)
    requires
        well_formed(data),
        forall|j: nat|
            j < passwords.len() ==> (#[trigger] password_outcome(
                ciphertext_of(data),
                base_nonce_of(data),
                passwords[j as int],
                salt,
                auto,
            )) is None,
    ensures
        search_outcome(data, passwords, salt, auto) == exhausted(passwords.len()),
{
    lemma_no_password_from(ciphertext_of(data), base_nonce_of(data), passwords, salt, auto, 0);
}

/// Input whose first byte is not that of the magic tag is never searched:
/// changing the first byte of a container ends every search with
/// [`DecryptionError::InvalidFormat`] before a password is tried.
pub proof fn lemma_changed_magic_ends_search(
    data: Seq<u8>,
    byte: u8,
    passwords: Seq<Seq<u8>>,
    salt: Option<Seq<u8>>,
    auto: bool,
)
    requires
        well_formed(data),
        byte != data[0],
    ensures
        search_outcome(data.update(0, byte), passwords, salt, auto) == (ReportView {
            attempts: 0,
            outcome: Err(DecryptionError::InvalidFormat),
        }),
{
    lemma_changed_magic_is_rejected(
        data,
        byte,
        Seq::empty(),
        Seq::empty(),
        canonical_cost(),
        NonceRule::LittleEndianIncrement,
    );
}

/// A configuration at the canonical cost.
fn plain_configuration(salt: Vec<u8>) -> (configuration: Configuration)
    ensures
        configuration@ == plain(salt@),
{
    Configuration { salt, params: CostParameters::canonical(), probe_first: false }
}

/// A configuration at another cost.
fn probing_configuration(salt: &Vec<u8>, log2_n: u8, r: u32, p: u32) -> (configuration: Configuration)
    ensures
        configuration@ == probing(salt@, log2_n, r, p),
{
    Configuration {
        salt: slice_to_vec(salt.as_slice()),
        params: CostParameters { log2_n, r, p },
        probe_first: true,
    }
}

/// The configurations to try for a password, in order.
pub fn configurations_for(password: &[u8], salt: Option<&str>, auto: bool) -> (list: Vec<Configuration>)
    ensures
        views(list@) == configurations(password@, salt_text(salt), auto),
{
    let direct: Vec<u8> = match salt {
        Some(s) => decode_salt(s),
        None => Vec::new(),
    };
    let mut list: Vec<Configuration> = Vec::new();
    list.push(plain_configuration(slice_to_vec(direct.as_slice())));
    if auto {
        list.push(plain_configuration(Vec::new()));
        list.push(plain_configuration(slice_to_vec(password)));
        match salt {
            Some(s) => {
                list.push(plain_configuration(interpret_salt(s.as_bytes(), 0)));
            },
            None => {},
        }
        list.push(plain_configuration(slice_to_vec("rclone".as_bytes())));
        list.push(plain_configuration(slice_to_vec("default".as_bytes())));
        list.push(plain_configuration(Vec::new()));
        list.push(plain_configuration(slice_to_vec("salt".as_bytes())));
        list.push(probing_configuration(&direct, 15, 8, 1));
        list.push(probing_configuration(&direct, 16, 8, 1));
        list.push(probing_configuration(&direct, 13, 8, 1));
        list.push(probing_configuration(&direct, 12, 8, 1));
    }
    proof {
        assert(views(list@) =~= configurations(password@, salt_text(salt), auto));
    }
    list
}

/// Tries one configuration on a parsed container: derives the key, opens
/// the first chunk alone where the configuration asks for that, and
/// decrypts the ciphertext with the little-endian nonce rule.
pub fn try_configuration(
    sodium: &Sodium,
    container: &EncryptedContainer,
    password: &[u8],
    configuration: &Configuration,
) -> (run: Option<Decrypted>)
    ensures
        match run {
            Some(decrypted) => attempted(
                container.ciphertext_bytes(),
                container.nonce_bytes(),
                password@,
                configuration@,
            ) == Some(decrypted@),
            None => attempted(
                container.ciphertext_bytes(),
                container.nonce_bytes(),
                password@,
                configuration@,
            ) is None,
        },
{
    let mut key = match derive_key(password, configuration.salt.as_slice(), &configuration.params) {
        Some(key) => key,
        None => {
            return None;
        },
    };
    let ct = container.ciphertext();
    let probed = if configuration.probe_first {
        let first = slice_subrange(ct, 0, next_chunk_len(ct.len()));
        sodium.open(first, &key, container.base_nonce()).is_ok()
    } else {
        true
    };
    let run = if probed {
        match decrypt_chunks(sodium, container, &key, NonceRule::LittleEndianIncrement) {
            Ok(decrypted) => Some(decrypted),
            Err(_) => None,
        }
    } else {
        None
    };
    wipe_key(&mut key);
    run
}

/// Searches the configurations of one password, in order, for the first
/// that decrypts the container.
pub fn try_password(
    sodium: &Sodium,
    container: &EncryptedContainer,
    password: &[u8],
    salt: Option<&str>,
    auto: bool,
) -> (found: Option<Found>)
    ensures
        match found {
            Some(f) => password_outcome(
                container.ciphertext_bytes(),
                container.nonce_bytes(),
                password@,
                salt_text(salt),
                auto,
            ) == Some(f@),
            None => password_outcome(
                container.ciphertext_bytes(),
                container.nonce_bytes(),
                password@,
                salt_text(salt),
                auto,
            ) is None,
        },
{
    let list = configurations_for(password, salt, auto);
    let ghost ct = container.ciphertext_bytes();
    let ghost base = container.nonce_bytes();
    let ghost all = configurations(password@, salt_text(salt), auto);
    let mut i: usize = 0;
    while i < list.len()
        invariant
            i <= list.len(),
            views(list@) == all,
            all == configurations(password@, salt_text(salt), auto),
            ct == container.ciphertext_bytes(),
            base == container.nonce_bytes(),
            first_working(ct, base, password@, all, 0) == first_working(
                ct,
                base,
                password@,
                all,
                i as nat,
            ),
        decreases list.len() - i,
    {
        let configuration = &list[i];
        assert(all[i as int] == configuration@);
        match try_configuration(sodium, container, password, configuration) {
            Some(decrypted) => {
                assert(first_working(ct, base, password@, all, i as nat) == Some(i as nat));
                let found = Found {
                    configuration: i,
                    salt: slice_to_vec(configuration.salt.as_slice()),
                    params: configuration.params,
                    decrypted,
                };
                return Some(found);
            },
            None => {},
        }
        i = i + 1;
    }
    None
}

/// Searches a list of candidate passwords, in order, for the first that
/// decrypts the container, and reports how many were tried.
///
/// Input that is no container ends the search before any password is
/// tried. No password is skipped, and none is tried after one has worked.
pub fn recover_with(
    sodium: &Sodium,
    data: &[u8],
    passwords: &[String],
    salt: Option<&str>,
    auto: bool,
) -> (report: SearchReport)
    ensures
        report@ == search_outcome(data@, password_bytes(passwords@), salt_text(salt), auto),
{
    let container = match EncryptedContainer::parse(data) {
        Ok(container) => container,
        Err(e) => {
            return SearchReport { attempts: 0, outcome: Err(e) };
        },
    };
    let ghost ct = container.ciphertext_bytes();
    let ghost base = container.nonce_bytes();
    let ghost all = password_bytes(passwords@);
    let mut i: usize = 0;
    while i < passwords.len()
        invariant
            i <= passwords.len(),
            all == password_bytes(passwords@),
            well_formed(data@),
            ct == ciphertext_of(data@),
            base == base_nonce_of(data@),
            ct == container.ciphertext_bytes(),
            base == container.nonce_bytes(),
            first_password(ct, base, all, salt_text(salt), auto, 0) == first_password(
                ct,
                base,
                all,
                salt_text(salt),
                auto,
                i as nat,
            ),
        decreases passwords.len() - i,
    {
        let password = passwords[i].as_str().as_bytes();
        assert(all[i as int] == password@);
        match try_password(sodium, &container, password, salt, auto) {
            Some(found) => {
                assert(first_password(ct, base, all, salt_text(salt), auto, i as nat) == Some(
                    i as nat,
                ));
                return SearchReport {
                    attempts: i + 1,
                    outcome: Ok(Recovered { password_index: i, found }),
                };
            },
            None => {},
        }
        i = i + 1;
    }
    SearchReport { attempts: passwords.len(), outcome: Err(DecryptionError::InvalidPassword) }
}

/// Searches as [`recover_with`] does, initialising the sodium library
/// itself. Where the library cannot be initialised, no candidate can work:
/// the search over a well-formed container then ends as exhausted.
pub fn recover(data: &[u8], passwords: &[String], salt: Option<&str>, auto: bool) -> (report:
    SearchReport)
    ensures
        report@ == search_outcome(data@, password_bytes(passwords@), salt_text(salt), auto) || (
        well_formed(data@) && report@ == exhausted(passwords@.len())),
{
    match Sodium::init() {
        Some(sodium) => recover_with(&sodium, data, passwords, salt, auto),
        None => match EncryptedContainer::parse(data) {
            Ok(_) => SearchReport {
                attempts: passwords.len(),
                outcome: Err(DecryptionError::InvalidPassword),
            },
            Err(e) => SearchReport { attempts: 0, outcome: Err(e) },
        },
    }
}

} // verus!
