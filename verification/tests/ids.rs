use twin_api::db::select_by_id_query;
use twin_api::ids::str_to_uuid;
use twin_api::models::{ElementRegister, SourceRegister};
use twin_api::replies::{create_element, create_source};

/// The id the library writes into a query, read back out of it.
fn uuid_text(u: u128) -> String {
    let q = select_by_id_query("t", u);
    q.strip_prefix("SELECT * FROM t WHERE id = ").unwrap().to_string()
}

const SAMPLE: u128 = 0x557c8018_5e21_4b74_8bb0_9040e2e8ead1;

#[test]
fn hyphenated_id_is_read() {
    assert_eq!(str_to_uuid("557c8018-5e21-4b74-8bb0-9040e2e8ead1".to_string()), Ok(SAMPLE));
}

#[test]
fn upper_case_and_simple_ids_are_read() {
    assert_eq!(str_to_uuid("557C8018-5E21-4B74-8BB0-9040E2E8EAD1".to_string()), Ok(SAMPLE));
    assert_eq!(str_to_uuid("557c80185e214b748bb09040e2e8ead1".to_string()), Ok(SAMPLE));
}

#[test]
fn urn_ids_are_read() {
    assert_eq!(str_to_uuid("urn:uuid:557c8018-5e21-4b74-8bb0-9040e2e8ead1".to_string()), Ok(SAMPLE));
    let refused = Err(("Invalid input.".to_string(), 400));
    assert_eq!(str_to_uuid("URN:UUID:557c8018-5e21-4b74-8bb0-9040e2e8ead1".to_string()), refused);
    assert_eq!(str_to_uuid("{557c8018-5e21-4b74-8bb0-9040e2e8ead1}".to_string()), refused);
}

#[test]
fn blob_ids_are_read() {
    assert_eq!(str_to_uuid("VXyAGF4hS3SLsJBA4ujq0Q".to_string()), Ok(SAMPLE));
}

#[test]
fn bad_ids_are_refused() {
    let refused = Err(("Invalid input.".to_string(), 400));
    assert_eq!(str_to_uuid("123".to_string()), refused);
    assert_eq!(str_to_uuid("557c8018-5e21-4b74-8bb0-9040e2e8ead1-123".to_string()), refused);
    assert_eq!(str_to_uuid("557c8018-5e21-4b74-8bb0-9040e2e8eadg".to_string()), refused);
    assert_eq!(str_to_uuid("557c80185e21-4b74-8bb0-9040e2e8ead1-".to_string()), refused);
    assert_eq!(str_to_uuid(String::new()), refused);
}

#[test]
fn ids_are_written_hyphenated_in_lower_case() {
    assert_eq!(uuid_text(SAMPLE), "557c8018-5e21-4b74-8bb0-9040e2e8ead1");
    assert_eq!(uuid_text(0), "00000000-0000-0000-0000-000000000000");
    assert_eq!(uuid_text(u128::MAX), "ffffffff-ffff-ffff-ffff-ffffffffffff");
}

#[test]
fn written_ids_read_back() {
    for u in [0u128, 1, SAMPLE, u128::MAX, 0x0123_4567_89ab_cdef_fedc_ba98_7654_3210] {
        assert_eq!(str_to_uuid(uuid_text(u)), Ok(u));
    }
}

#[test]
fn new_ids_are_random_version_four() {
    let reg = ElementRegister { name: "E".to_string(), parent: None };
    let a = create_element(&reg, 5).id;
    let b = create_element(&reg, 5).id;
    assert_ne!(a, b);
    assert_eq!((a >> 76) & 0xf, 4);
    assert_eq!((a >> 62) & 0x3, 2);
    assert_eq!(str_to_uuid(uuid_text(a)), Ok(a));
    let s = create_source(&SourceRegister { name: "S".to_string(), element: 9 });
    assert_eq!((s.id >> 76) & 0xf, 4);
    assert_eq!(s.element, 9);
    assert_eq!(s.name, "S");
}

#[test]
fn written_ids_agree_with_the_uuid_crate() {
    for u in [0u128, SAMPLE, u128::MAX] {
        assert_eq!(uuid_text(u), uuid::Uuid::from_u128(u).to_string());
    }
}
