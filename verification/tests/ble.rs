use antinode::ble::{
    request_uuid, response_uuid, service_uuid, ASSUMED_WRITE_LEN, GUITAR_CHARACTERISTIC_REQUEST,
    GUITAR_CHARACTERISTIC_RESPONSE, GUITAR_SERVICE,
};

#[test]
fn the_uuid_constants_parse() {
    // These are fixed constants, so a typo must fail a test rather than a
    // user's connection.
    let _ = service_uuid();
    let _ = request_uuid();
    let _ = response_uuid();
}

#[test]
fn the_uuids_are_distinct() {
    assert_ne!(request_uuid(), response_uuid());
    assert_ne!(service_uuid(), request_uuid());
}

#[test]
fn the_uuids_are_the_constants() {
    assert_eq!(service_uuid().to_string(), GUITAR_SERVICE);
    assert_eq!(request_uuid().to_string(), GUITAR_CHARACTERISTIC_REQUEST);
    assert_eq!(response_uuid().to_string(), GUITAR_CHARACTERISTIC_RESPONSE);
    assert_eq!(ASSUMED_WRITE_LEN, 514);
}

#[test]
fn no_two_gatt_identifiers_coincide() {
    let all = [service_uuid(), request_uuid(), response_uuid()];
    for i in 0..all.len() {
        for j in 0..all.len() {
            assert_eq!(all[i] == all[j], i == j);
        }
    }
}
