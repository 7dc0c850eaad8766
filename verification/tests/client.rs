use dhd::client::{
    from_wire, read_failure, to_wire, DhdClientError, HashlistMutation, HashlistQuery,
    MutationVariables,
};
use dhd::hashlist::HashList;

fn values(list: &HashList) -> Vec<u32> {
    list.to_sequence().iter().map(|hash| hash.value()).collect()
}

fn list(values: &[u32]) -> HashList {
    HashList::new(values.iter().map(|u| dhd::hashlist::Hash::new(*u)).collect())
}

#[test]
fn wire_values_are_signed_readings() {
    let sent = to_wire(&list(&[0, 1, 0x7FFF_FFFF, 0x8000_0000, 0xFFFF_FFFF]));
    assert_eq!(sent, vec![0, 1, 2_147_483_647, -2_147_483_648, -1]);
}

#[test]
fn wire_round_trip() {
    let hashes = [0u32, 5, 0x8000_0000, 0xFFFF_FFFF, 0xCBF4_3926];
    assert_eq!(values(&from_wire(&to_wire(&list(&hashes)))), hashes.to_vec());
}

#[test]
fn wire_values_beyond_32_bits_keep_their_low_bits() {
    let got = from_wire(&vec![4_294_967_296, 4_294_967_301, -4_294_967_297, i64::MIN, i64::MAX]);
    assert_eq!(values(&got), vec![0, 5, 0xFFFF_FFFF, 0, 0xFFFF_FFFF]);
}

#[test]
fn mutation_variables() {
    assert_eq!(
        HashlistMutation::build_query("alice", &list(&[3, 0xFFFF_FFFE])),
        MutationVariables { username: "alice".to_string(), hashes: vec![3, -2] }
    );
    assert_eq!(HashlistQuery::build_query("bob").username, "bob");
}

#[test]
fn mutation_response() {
    assert_eq!(
        HashlistMutation::read_response(Some("alice".to_string()), None),
        Ok("alice".to_string())
    );
    assert_eq!(
        HashlistMutation::read_response(
            Some("alice".to_string()),
            Some(vec!["ignored".to_string()])
        ),
        Ok("alice".to_string())
    );
    assert_eq!(
        HashlistMutation::read_response(None, Some(vec!["first".to_string(), "second".to_string()])),
        Err(DhdClientError::QueryError("first".to_string()))
    );
    assert_eq!(
        HashlistMutation::read_response(None, Some(vec![])),
        Err(DhdClientError::UnknownError)
    );
    assert_eq!(HashlistMutation::read_response(None, None), Err(DhdClientError::UnknownError));
}

#[test]
fn query_response() {
    let got = HashlistQuery::read_response(Some(vec![1, -1]), None).unwrap();
    assert_eq!(values(&got), vec![1, 0xFFFF_FFFF]);
    let got = HashlistQuery::read_response(Some(vec![]), Some(vec!["ignored".to_string()]));
    assert_eq!(values(&got.unwrap()), Vec::<u32>::new());
    assert_eq!(
        HashlistQuery::read_response(None, Some(vec!["no such user".to_string()])).err(),
        Some(DhdClientError::QueryError("no such user".to_string()))
    );
    assert_eq!(
        HashlistQuery::read_response(None, Some(vec![])).err(),
        Some(DhdClientError::UnknownError)
    );
    assert_eq!(HashlistQuery::read_response(None, None).err(), Some(DhdClientError::UnknownError));
}

#[test]
fn failure_of_a_response() {
    assert_eq!(read_failure(None), DhdClientError::UnknownError);
    assert_eq!(read_failure(Some(vec![])), DhdClientError::UnknownError);
    assert_eq!(
        read_failure(Some(vec!["a".to_string(), "b".to_string()])),
        DhdClientError::QueryError("a".to_string())
    );
}
