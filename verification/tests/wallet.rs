use words_breaker::language::Language;
use words_breaker::wallet::{
    address_facts, derive_address, is_target, p2pkh_hash160, parse_target, target_from_facts,
    AddressFacts, Network, TargetError,
};

const ABOUT: &str = "abandon abandon abandon abandon abandon abandon abandon abandon abandon \
                     abandon abandon about";

const HASH: [u8; 20] = [
    0x77, 0xbf, 0xf2, 0x0c, 0x60, 0xe5, 0x22, 0xdf, 0xaa, 0x33, 0x50, 0xc3, 0x9b, 0x03, 0x0a, 0x5d,
    0x00, 0x4e, 0x83, 0x9a,
];

fn script(hash: &[u8]) -> Vec<u8> {
    let mut bytes = vec![0x76, 0xa9, 0x14];
    bytes.extend_from_slice(hash);
    bytes.extend_from_slice(&[0x88, 0xac]);
    bytes
}

#[test]
fn a_known_mnemonic_leads_to_its_address() {
    let address = derive_address(Language::English, &ABOUT.to_string());
    assert_eq!(address.as_deref(), Some("1LqBGSKuX5yYUonjxT5qGfpUsXKYYWeabA"));
    assert!(is_target(&address, &"1LqBGSKuX5yYUonjxT5qGfpUsXKYYWeabA".to_string()));
    assert!(!is_target(&address, &"1BvBMSEYstWetqTFn5Au4m4GFg7xJaNVN2".to_string()));
    assert!(!is_target(&None, &"1LqBGSKuX5yYUonjxT5qGfpUsXKYYWeabA".to_string()));
}

#[test]
fn what_is_no_mnemonic_leads_nowhere() {
    let twelve = ABOUT.replace("about", "abandon");
    assert_eq!(derive_address(Language::English, &twelve), None);
    assert_eq!(derive_address(Language::English, &"abandon about".to_string()), None);
    assert_eq!(derive_address(Language::English, &String::new()), None);
    assert_eq!(derive_address(Language::Czech, &ABOUT.to_string()), None);
}

#[test]
fn a_derived_address_can_be_searched_for() {
    let address = derive_address(Language::English, &ABOUT.to_string()).unwrap();
    let target = parse_target(&address).ok().unwrap();
    assert_eq!(target.address, address);
}

#[test]
fn legacy_addresses_are_targets() {
    let target = parse_target("1BvBMSEYstWetqTFn5Au4m4GFg7xJaNVN2").ok().unwrap();
    assert_eq!(target.address, "1BvBMSEYstWetqTFn5Au4m4GFg7xJaNVN2");
    assert_eq!(target.hash160, HASH);
}

#[test]
fn what_is_no_address_is_refused() {
    for text in ["", "hello", "1BvBMSEYstWetqTFn5Au4m4GFg7xJaNVN3"] {
        assert!(matches!(parse_target(text), Err(TargetError::InvalidAddress)));
    }
}

#[test]
fn other_addresses_are_refused() {
    for text in [
        "mipcBbFg9gMiCh81Kj8tqqdgoZub1ZJRfn",
        "3P14159f73E4gFr7JterCCQh9QjiTjiZrG",
        "bc1qar0srrr7xfkvy5l643lydnw9re59gtzzwf5mdq",
    ] {
        assert!(matches!(parse_target(text), Err(TargetError::NotMainnetLegacy)), "{text}");
    }
}

#[test]
fn the_hash_is_taken_out_of_the_script() {
    assert_eq!(p2pkh_hash160(&script(&HASH)).ok(), Some(HASH));
    let mut other = script(&HASH);
    other[2] = 0x13;
    assert!(p2pkh_hash160(&other).is_err());
    other = script(&HASH);
    other.push(0);
    assert!(p2pkh_hash160(&other).is_err());
    assert!(p2pkh_hash160(&vec![]).is_err());
    other = script(&HASH);
    other[24] = 0;
    assert_eq!(p2pkh_hash160(&other).ok(), Some(HASH));
}

#[test]
fn the_facts_decide_on_a_target() {
    let facts = |on_network: bool, script: Vec<u8>| {
        Some(AddressFacts { on_network, script, text: "text".to_string() })
    };
    assert!(matches!(target_from_facts(None), Err(TargetError::InvalidAddress)));
    assert!(matches!(
        target_from_facts(facts(false, script(&HASH))),
        Err(TargetError::NotMainnetLegacy)
    ));
    assert!(matches!(target_from_facts(facts(true, vec![])), Err(TargetError::NotMainnetLegacy)));
    let target = target_from_facts(facts(true, script(&HASH))).ok().unwrap();
    assert_eq!(target.address, "text");
    assert_eq!(target.hash160, HASH);
}

#[test]
fn facts_depend_on_the_network() {
    let text = "mipcBbFg9gMiCh81Kj8tqqdgoZub1ZJRfn";
    let test = address_facts(text, Network::Testnet).unwrap();
    assert!(test.on_network);
    assert_eq!(test.text, text);
    assert!(p2pkh_hash160(&test.script).is_ok());
    assert!(!address_facts(text, Network::Bitcoin).unwrap().on_network);
    assert!(address_facts("nothing", Network::Testnet).is_none());
    let segwit = address_facts("BC1QAR0SRRR7XFKVY5L643LYDNW9RE59GTZZWF5MDQ", Network::Bitcoin);
    assert_eq!(segwit.unwrap().text, "bc1qar0srrr7xfkvy5l643lydnw9re59gtzzwf5mdq");
}
