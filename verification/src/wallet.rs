//! From a phrase to its address, and what a target address says.

use vstd::prelude::*;

use crate::language::Language;

verus! {

/// The network that keys and addresses are made for.
#[derive(Debug, Clone, Copy, PartialEq, Eq, Structural)]
pub enum Network {
    Bitcoin,
    Testnet,
}

/// The path of the first receiving address of the first account.
pub const DERIVATION_PATH: &'static str = "m/44'/0'/0'/0/0";

/// The seed that `bip39::Mnemonic::to_seed` returns for a valid mnemonic.
pub uninterp spec fn mnemonic_seed_of(
    language: Language,
    phrase: Seq<char>,
    passphrase: Seq<char>,
) -> Option<Seq<u8>>;

/// The encoded key that `bitcoin::bip32::Xpriv::new_master` returns.
pub uninterp spec fn master_key_of(network: Network, seed: Seq<u8>) -> Option<Seq<u8>>;

/// The encoded key that `bitcoin::bip32::Xpriv::derive_priv` returns.
pub uninterp spec fn child_key_of(key: Seq<u8>, path: Seq<char>) -> Option<Seq<u8>>;

/// The encoded key that `bitcoin::secp256k1::SecretKey::public_key` returns.
pub uninterp spec fn public_key_of(key: Seq<u8>) -> Option<Seq<u8>>;

/// The address that `bitcoin::Address::p2pkh` returns.
pub uninterp spec fn p2pkh_address_of(public_key: Seq<u8>, network: Network) -> Option<Seq<char>>;

/// The text that `bitcoin::Address` gives back for the text of an address.
pub uninterp spec fn address_text_of(address: Seq<char>) -> Option<Seq<char>>;

/// Whether `bitcoin::Address::require_network` accepts an address for the network.
pub uninterp spec fn belongs_to_network(address: Seq<char>, network: Network) -> bool;

/// The script that `bitcoin::Address::script_pubkey` returns.
pub uninterp spec fn script_of(address: Seq<char>) -> Option<Seq<u8>>;

/// What a byte string that may be absent holds.
pub open spec fn bytes_of(bytes: Option<Vec<u8>>) -> Option<Seq<u8>> {
    match bytes {
        Some(b) => Some(b@),
        None => None,
    }
}

/// What a text that may be absent holds.
pub open spec fn text_of(text: Option<String>) -> Option<Seq<char>> {
    match text {
        Some(t) => Some(t@),
        None => None,
    }
}

/// `bip39::Mnemonic::to_seed` makes the seed of the mnemonic that a phrase stands for, which has 64
/// bytes. `None` comes for a phrase that `bip39::Mnemonic::parse_in_normalized` refuses: one whose
/// words are too few, too many or not in the language's list, or whose checksum does not hold.
#[verifier::external_body]
fn mnemonic_seed(language: Language, phrase: &str, passphrase: &str) -> (seed: Option<Vec<u8>>)
    ensures
        bytes_of(seed) == mnemonic_seed_of(language, phrase@, passphrase@),
        seed matches Some(s) ==> s@.len() == 64,
{
    let list = match language {
        Language::English => bip39::Language::English,
        Language::Portuguese => bip39::Language::Portuguese,
        Language::Spanish => bip39::Language::Spanish,
        Language::French => bip39::Language::French,
        Language::Italian => bip39::Language::Italian,
        Language::Czech => bip39::Language::Czech,
        Language::Korean => bip39::Language::Korean,
        Language::Japanese => bip39::Language::Japanese,
        Language::SimplifiedChinese => bip39::Language::SimplifiedChinese,
        Language::TraditionalChinese => bip39::Language::TraditionalChinese,
    };
    let mnemonic = bip39::Mnemonic::parse_in_normalized(list, phrase).ok()?;
    Some(mnemonic.to_seed(passphrase).to_vec())
}

/// `bitcoin::bip32::Xpriv::new_master` makes the master key of a seed, unless the hash of the seed
/// is no secret key. The key is handed on in its lossless binary encoding.
#[verifier::external_body]
fn master_key(network: Network, seed: &Vec<u8>) -> (key: Option<Vec<u8>>)
    ensures
        bytes_of(key) == master_key_of(network, seed@),
{
    let network = match network {
        Network::Bitcoin => bitcoin::Network::Bitcoin,
        Network::Testnet => bitcoin::Network::Testnet,
    };
    let key = bitcoin::bip32::Xpriv::new_master(network, seed).ok()?;
    Some(key.encode().to_vec())
}

/// `bitcoin::bip32::Xpriv::derive_priv` derives the key at the end of the path. `None` comes for
/// bytes that are no encoded key, a text that is no path, and a path that leads too deep. It is
/// left unsaid that a hash on the way is a secret key: `derive_priv` panics where one is not, which
/// it calls statistically impossible, and no condition on the arguments tells.
#[verifier::external_body]
fn child_key(key: &Vec<u8>, path: &str) -> (child: Option<Vec<u8>>)
    ensures
        bytes_of(child) == child_key_of(key@, path@),
{
    let key = bitcoin::bip32::Xpriv::decode(key).ok()?;
    let path = path.parse::<bitcoin::bip32::DerivationPath>().ok()?;
    let secp = bitcoin::secp256k1::Secp256k1::new();
    let child = key.derive_priv(&secp, &path).ok()?;
    Some(child.encode().to_vec())
}

/// `bitcoin::secp256k1::SecretKey::public_key` of the private key in an encoded key, as the
/// compressed key that `bitcoin::PublicKey::new` makes of it. `None` comes for bytes that are no
/// encoded key.
#[verifier::external_body]
fn public_key(key: &Vec<u8>) -> (public: Option<Vec<u8>>)
    ensures
        bytes_of(public) == public_key_of(key@),
{
    let key = bitcoin::bip32::Xpriv::decode(key).ok()?;
    let secp = bitcoin::secp256k1::Secp256k1::new();
    Some(bitcoin::PublicKey::new(key.private_key.public_key(&secp)).to_bytes())
}

/// `bitcoin::Address::p2pkh` makes the legacy address of a public key, handed on as its text.
/// `None` comes for bytes that are no public key.
#[verifier::external_body]
fn p2pkh_address(public_key: &Vec<u8>, network: Network) -> (address: Option<String>)
    ensures
        text_of(address) == p2pkh_address_of(public_key@, network),
{
    let network = match network {
        Network::Bitcoin => bitcoin::Network::Bitcoin,
        Network::Testnet => bitcoin::Network::Testnet,
    };
    let key = bitcoin::PublicKey::from_slice(public_key).ok()?;
    Some(bitcoin::Address::p2pkh(&key, network).to_string())
}

/// What is known of an address.
#[derive(Debug)]
pub struct AddressFacts {
    /// It is an address of the network that was asked about.
    pub on_network: bool,
    /// The script that pays to it.
    pub script: Vec<u8>,
    /// The address, as it is written.
    pub text: String,
}

/// The content of what is known of an address.
pub open spec fn facts_of(facts: Option<AddressFacts>) -> Option<(bool, Seq<u8>, Seq<char>)> {
    match facts {
        Some(f) => Some((f.on_network, f.script@, f.text@)),
        None => None,
    }
}

/// `str::parse::<bitcoin::Address<NetworkUnchecked>>` reads an address, handed on as the text that
/// `to_string` writes for it. `None` comes for a text that is no address.
#[verifier::external_body]
fn read_address(address: &str) -> (text: Option<String>)
    ensures
        text_of(text) == address_text_of(address@),
{
    let address = address.parse::<bitcoin::Address<bitcoin::address::NetworkUnchecked>>().ok()?;
    Some(address.assume_checked().to_string())
}

/// `bitcoin::Address::require_network` accepts an address of the network and no other. For a text
/// that is no address the answer is `false`.
#[verifier::external_body]
fn is_on_network(address: &str, network: Network) -> (r: bool)
    ensures
        r == belongs_to_network(address@, network),
{
    let network = match network {
        Network::Bitcoin => bitcoin::Network::Bitcoin,
        Network::Testnet => bitcoin::Network::Testnet,
    };
    match address.parse::<bitcoin::Address<bitcoin::address::NetworkUnchecked>>() {
        Ok(address) => address.require_network(network).is_ok(),
        Err(_) => false,
    }
}

/// `bitcoin::Address::script_pubkey` makes the script that pays to an address, handed on as its
/// bytes. `None` comes for a text that is no address.
#[verifier::external_body]
fn address_script(address: &str) -> (script: Option<Vec<u8>>)
    ensures
        bytes_of(script) == script_of(address@),
{
    let address = address.parse::<bitcoin::Address<bitcoin::address::NetworkUnchecked>>().ok()?;
    Some(address.assume_checked().script_pubkey().to_bytes())
}

/// What is known of an address: whether it is one of the network, its script and its text.
pub open spec fn facts_about(address: Seq<char>, network: Network) -> Option<
    (bool, Seq<u8>, Seq<char>),
> {
    match address_text_of(address) {
        None => None,
        Some(text) => match script_of(address) {
            None => None,
            Some(script) => Some((belongs_to_network(address, network), script, text)),
        },
    }
}

/// Asks what is known of an address. `None` comes for a text that is no address.
pub fn address_facts(address: &str, network: Network) -> (facts: Option<AddressFacts>)
    ensures
        facts_of(facts) == facts_about(address@, network),
{
    let text = match read_address(address) {
        Some(text) => text,
        None => return None,
    };
    let script = match address_script(address) {
        Some(script) => script,
        None => return None,
    };
    Some(AddressFacts { on_network: is_on_network(address, network), script, text })
}

/// The legacy address at `DERIVATION_PATH` of a phrase, without a passphrase: `None` where a step
/// on the way gives nothing.
pub open spec fn derived_address(language: Language, phrase: Seq<char>) -> Option<Seq<char>> {
    match mnemonic_seed_of(language, phrase, ""@) {
        None => None,
        Some(seed) => match master_key_of(Network::Bitcoin, seed) {
            None => None,
            Some(master) => match child_key_of(master, DERIVATION_PATH@) {
                None => None,
                Some(child) => match public_key_of(child) {
                    None => None,
                    Some(public) => p2pkh_address_of(public, Network::Bitcoin),
                },
            },
        },
    }
}

/// Derives the legacy address of a phrase. `None` comes for a phrase that is no mnemonic.
pub fn derive_address(language: Language, phrase: &String) -> (address: Option<String>)
    ensures
        text_of(address) == derived_address(language, phrase@),
{
    let seed = match mnemonic_seed(language, phrase.as_str(), "") {
        Some(seed) => seed,
        None => return None,
    };
    let master = match master_key(Network::Bitcoin, &seed) {
        Some(master) => master,
        None => return None,
    };
    let child = match child_key(&master, DERIVATION_PATH) {
        Some(child) => child,
        None => return None,
    };
    let public = match public_key(&child) {
        Some(public) => public,
        None => return None,
    };
    p2pkh_address(&public, Network::Bitcoin)
}

/// Tells whether the derived address is the one that is looked for.
pub fn is_target(derived: &Option<String>, target: &String) -> (r: bool)
    ensures
        r == (text_of(*derived) == Some(target@)),
{
    match derived {
        Some(address) => *address == *target,
        None => false,
    }
}

/// The script does not pay to the hash of a public key.
#[derive(Debug, PartialEq, Eq, Structural)]
pub struct NotP2pkh;

/// The script starts as one that pays to the hash of a public key, and is as long.
pub open spec fn pays_to_hash160(script: Seq<u8>) -> bool {
    script.len() == 25 && script[0] == 0x76 && script[1] == 0xa9 && script[2] == 0x14
}

/// The public key hash in the script of a legacy address.
pub fn p2pkh_hash160(script: &Vec<u8>) -> (r: Result<[u8; 20], NotP2pkh>)
    ensures
        match r {
            Ok(hash) => pays_to_hash160(script@) && hash@ == script@.subrange(3, 23),
            Err(_) => !pays_to_hash160(script@),
        },
{
    if script.len() == 25 && script[0] == 0x76 && script[1] == 0xa9 && script[2] == 0x14 {
        let mut hash: [u8; 20] = [0u8;20];
        let mut i: usize = 0;
        while i < 20
            invariant
                i <= 20,
                script@.len() == 25,
                forall|j: int| 0 <= j < i ==> hash@[j] == script@[j + 3],
            decreases 20 - i,
        {
            hash[i] = script[i + 3];
            i = i + 1;
        }
        assert(hash@ =~= script@.subrange(3, 23));
        Ok(hash)
    } else {
        Err(NotP2pkh)
    }
}

/// The address that is searched for.
#[derive(Debug)]
pub struct Target {
    /// The address, as it is written.
    pub address: String,
    /// The public key hash that it pays to.
    pub hash160: [u8; 20],
}

/// Why an address cannot be searched for.
#[derive(Debug, PartialEq, Eq, Structural)]
pub enum TargetError {
    /// The text is no address.
    InvalidAddress,
    /// The address is not a legacy address of the main network.
    NotMainnetLegacy,
}

/// The target that the facts about an address give, as address and hash.
pub open spec fn target_of(facts: Option<(bool, Seq<u8>, Seq<char>)>) -> Result<
    (Seq<char>, Seq<u8>),
    TargetError,
> {
    match facts {
        None => Err(TargetError::InvalidAddress),
        Some((on_network, script, text)) => if on_network && pays_to_hash160(script) {
            Ok((text, script.subrange(3, 23)))
        } else {
            Err(TargetError::NotMainnetLegacy)
        },
    }
}

/// The content of a target.
pub open spec fn target_view(r: Result<Target, TargetError>) -> Result<
    (Seq<char>, Seq<u8>),
    TargetError,
> {
    match r {
        Ok(target) => Ok((target.address@, target.hash160@)),
        Err(e) => Err(e),
    }
}

/// The target that the facts about an address on the main network give: only a legacy address of
/// that network is accepted.
pub fn target_from_facts(facts: Option<AddressFacts>) -> (r: Result<Target, TargetError>)
    ensures
        target_view(r) == target_of(facts_of(facts)),
{
    match facts {
        None => Err(TargetError::InvalidAddress),
        Some(f) => {
            if !f.on_network {
                return Err(TargetError::NotMainnetLegacy);
            }
            match p2pkh_hash160(&f.script) {
                Ok(hash160) => Ok(Target { address: f.text, hash160 }),
                Err(_) => Err(TargetError::NotMainnetLegacy),
            }
        },
    }
}

/// Reads the address to search for.
pub fn parse_target(address: &str) -> (r: Result<Target, TargetError>)
    ensures
        target_view(r) == target_of(facts_about(address@, Network::Bitcoin)),
{
    target_from_facts(address_facts(address, Network::Bitcoin))
}

/// Whatever the phrase is: where its seed without a passphrase is `s`, the master key of `s` on the
/// main network is `m`, the key of `m` at the path `m/44'/0'/0'/0/0` is `c` and the public key of `c`
/// is `k`, its address is the legacy address of `k` on the main network.
pub proof fn lemma_derived_address(
    language: Language,
    phrase: Seq<char>,
    s: Seq<u8>,
    m: Seq<u8>,
    c: Seq<u8>,
    k: Seq<u8>,
)
    requires
        mnemonic_seed_of(language, phrase, Seq::empty()) == Some(s),
        master_key_of(Network::Bitcoin, s) == Some(m),
        child_key_of(m, "m/44'/0'/0'/0/0"@) == Some(c),
        public_key_of(c) == Some(k),
    ensures
        derived_address(language, phrase) == p2pkh_address_of(k, Network::Bitcoin),
{
    reveal_strlit("");
    assert(""@ =~= Seq::empty());
}

/// A phrase leads to an address only by way of a seed, a master key, a key at the path and a public
/// key, and the address is one of the main network.
pub proof fn lemma_derivation(language: Language, phrase: Seq<char>, address: Seq<char>)
    requires
        derived_address(language, phrase) == Some(address),
    ensures
        exists|s: Seq<u8>, m: Seq<u8>, c: Seq<u8>, k: Seq<u8>|
            {
                &&& mnemonic_seed_of(language, phrase, Seq::empty()) == Some(s)
                &&& #[trigger] master_key_of(Network::Bitcoin, s) == Some(m)
                &&& #[trigger] child_key_of(m, "m/44'/0'/0'/0/0"@) == Some(c)
                &&& #[trigger] public_key_of(c) == Some(k)
                &&& #[trigger] p2pkh_address_of(k, Network::Bitcoin) == Some(address)
            },
{
    reveal_strlit("");
    assert(""@ =~= Seq::empty());
    let s = mnemonic_seed_of(language, phrase, Seq::empty())->0;
    let m = master_key_of(Network::Bitcoin, s)->0;
    let c = child_key_of(m, "m/44'/0'/0'/0/0"@)->0;
    let k = public_key_of(c)->0;
    assert(master_key_of(Network::Bitcoin, s) == Some(m));
    assert(child_key_of(m, "m/44'/0'/0'/0/0"@) == Some(c));
    assert(public_key_of(c) == Some(k));
    assert(p2pkh_address_of(k, Network::Bitcoin) == Some(address));
}

/// Phrases with the same seed have the same address, whatever their language and their words.
pub proof fn lemma_same_seed(
    language: Language,
    phrase: Seq<char>,
    other_language: Language,
    other: Seq<char>,
)
    requires
        mnemonic_seed_of(language, phrase, Seq::empty()) == mnemonic_seed_of(
            other_language,
            other,
            Seq::empty(),
        ),
    ensures
        derived_address(language, phrase) == derived_address(other_language, other),
{
    reveal_strlit("");
    assert(""@ =~= Seq::empty());
}

/// Whatever the 20 bytes are: the script that pays to a public key hash is known as one, and that
/// hash is read from it.
pub proof fn lemma_script_of_hash(h: Seq<u8>)
    requires
        h.len() == 20,
    ensures
        ({
            let script = seq![0x76u8, 0xa9, 0x14] + h + seq![0x88u8, 0xac];
            pays_to_hash160(script) && script.subrange(3, 23) == h
        }),
{
    let script = seq![0x76u8, 0xa9, 0x14] + h + seq![0x88u8, 0xac];
    assert(script.subrange(3, 23) =~= h);
}

/// A script is taken for one that pays to a public key hash only if it has 25 bytes and starts as
/// such scripts do, and whichever hash follows does not matter.
pub proof fn lemma_only_scripts_of_hashes(script: Seq<u8>, other: Seq<u8>)
    requires
        pays_to_hash160(script),
    ensures
        script.len() == 25,
        script.take(3) == seq![0x76u8, 0xa9, 0x14],
        other.len() == 25 && other.take(3) == script.take(3) ==> pays_to_hash160(other),
{
    assert(script.take(3) =~= seq![0x76u8, 0xa9, 0x14]);
    if other.len() == 25 && other.take(3) == script.take(3) {
        assert(other[0] == script.take(3)[0]);
        assert(other[1] == script.take(3)[1]);
        assert(other[2] == script.take(3)[2]);
    }
}

/// An address of the main network that pays to a public key hash is a target, with that hash,
/// whichever it is.
pub proof fn lemma_legacy_is_target(address: Seq<char>, text: Seq<char>, h: Seq<u8>)
    requires
        h.len() == 20,
        address_text_of(address) == Some(text),
        script_of(address) == Some(seq![0x76u8, 0xa9, 0x14] + h + seq![0x88u8, 0xac]),
        belongs_to_network(address, Network::Bitcoin),
    ensures
        target_of(facts_about(address, Network::Bitcoin)) == Ok::<
            (Seq<char>, Seq<u8>),
            TargetError,
        >((text, h)),
{
    lemma_script_of_hash(h);
}

/// A target is an address of the main network with a script of 25 bytes that starts as one that pays
/// to a public key hash; its text is that of the address and its hash stands in the script.
pub proof fn lemma_target_is_legacy(address: Seq<char>, text: Seq<char>, h: Seq<u8>)
    requires
        target_of(facts_about(address, Network::Bitcoin)) == Ok::<
            (Seq<char>, Seq<u8>),
            TargetError,
        >((text, h)),
    ensures
        address_text_of(address) == Some(text),
        belongs_to_network(address, Network::Bitcoin),
        script_of(address) matches Some(script) && script.len() == 25 && script.take(3) == seq![
            0x76u8,
            0xa9,
            0x14,
        ] && script.subrange(3, 23) == h,
{
    lemma_only_scripts_of_hashes(script_of(address)->0, script_of(address)->0);
}

/// What is no address is refused as such, and an address that is no target is refused as not being a
/// legacy address of the main network.
pub proof fn lemma_refused_target(address: Seq<char>)
    ensures
        address_text_of(address) is None ==> target_of(facts_about(address, Network::Bitcoin))
            == Err::<(Seq<char>, Seq<u8>), TargetError>(TargetError::InvalidAddress),
        address_text_of(address) is Some && script_of(address) is Some && target_of(
            facts_about(address, Network::Bitcoin),
        ) is Err ==> target_of(facts_about(address, Network::Bitcoin)) == Err::<
            (Seq<char>, Seq<u8>),
            TargetError,
        >(TargetError::NotMainnetLegacy),
{
}

/// What is said of bytes, texts, facts and targets that may be absent is said of what they hold.
pub proof fn lemma_views(b: Vec<u8>, t: String, f: AddressFacts, g: Target, e: TargetError)
    ensures
        bytes_of(Some(b)) == Some(b@),
        bytes_of(None) is None,
        text_of(Some(t)) == Some(t@),
        text_of(None) is None,
        facts_of(Some(f)) == Some((f.on_network, f.script@, f.text@)),
        facts_of(None) is None,
        target_view(Ok(g)) == Ok::<(Seq<char>, Seq<u8>), TargetError>((g.address@, g.hash160@)),
        target_view(Err(e)) == Err::<(Seq<char>, Seq<u8>), TargetError>(e),
{
}

} // verus!
