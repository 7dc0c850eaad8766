use dhd::hashlist::{HashList, MalformedFingerprint};
use std::convert::TryFrom;

#[test]
fn fingerprint_from_unsigned() {
    let hash: dhd::hashlist::Hash = 5u32.into();
    assert_eq!(hash, dhd::hashlist::Hash::new(5));
    assert_eq!(dhd::hashlist::Hash::from(u32::MAX).value(), u32::MAX);
}

#[test]
fn fingerprint_from_str() {
    assert_eq!("12".parse::<dhd::hashlist::Hash>(), Ok(dhd::hashlist::Hash::new(12)));
    assert_eq!(
        "4294967295".parse::<dhd::hashlist::Hash>(),
        Ok(dhd::hashlist::Hash::new(u32::MAX))
    );
    assert_eq!("".parse::<dhd::hashlist::Hash>(), Err(MalformedFingerprint { line: 0 }));
    assert_eq!("1x".parse::<dhd::hashlist::Hash>(), Err(MalformedFingerprint { line: 0 }));
    assert_eq!(
        "4294967296".parse::<dhd::hashlist::Hash>(),
        Err(MalformedFingerprint { line: 0 })
    );
}

#[test]
fn list_from_and_into_vec() {
    let hashes = vec![dhd::hashlist::Hash::new(1), dhd::hashlist::Hash::new(2)];
    let list: HashList = hashes.clone().into();
    assert_eq!(list.len(), 2);
    assert_eq!(list.to_sequence().to_vec(), hashes);
    let back: Vec<dhd::hashlist::Hash> = list.into();
    assert_eq!(back, hashes);
}

#[test]
fn list_try_from_str() {
    let list = HashList::try_from("10\n20\n30").unwrap();
    assert_eq!(
        Vec::from(list),
        vec![
            dhd::hashlist::Hash::new(10),
            dhd::hashlist::Hash::new(20),
            dhd::hashlist::Hash::new(30)
        ]
    );
    assert_eq!(
        HashList::try_from("10\n\n30").err(),
        Some(MalformedFingerprint { line: 1 })
    );
    assert_eq!(HashList::try_from("").err(), Some(MalformedFingerprint { line: 0 }));
}

#[test]
fn list_clone_keeps_the_fingerprints() {
    let list = HashList::new(vec![dhd::hashlist::Hash::new(9), dhd::hashlist::Hash::new(8)]);
    let copy = list.clone();
    assert_eq!(copy.to_sequence(), list.to_sequence());
    assert_eq!(copy.to_delimited_string(), "9\n8");
}
