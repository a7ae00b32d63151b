use crm_store::records::{Error, InteractionPayload};
use crm_store::records::{is_valid_email, is_valid_phone, is_valid_interaction_payload};
use crm_store::records::u64_to_decimal;
use crm_store::store::Store;

fn payload(customer_id: u64, kind: &str, content: &str) -> InteractionPayload {
    InteractionPayload {
        customer_id,
        interaction_type: kind.to_string(),
        content: content.to_string(),
    }
}

#[test]
fn ids_come_from_one_shared_sequence() {
    let mut s = Store::new();
    let c1 = s.add_customer("Ann".to_string(), "ann@x.com".to_string(), "111".to_string(), 10)
        .unwrap();
    let i1 = s.add_interaction(payload(c1.id, "Call", "hello"), 11).unwrap();
    let c2 = s.add_customer("Bob".to_string(), "bob@x.com".to_string(), "222".to_string(), 12)
        .unwrap();
    let i2 = s.add_interaction(payload(c2.id, "Email", "hi"), 13).unwrap();
    assert_eq!(c1.id, 1);
    assert_eq!(i1.id, 2);
    assert_eq!(c2.id, 3);
    assert_eq!(i2.id, 4);
    assert!(i1.id > c1.id && c2.id > i1.id && i2.id > c2.id);
    assert_eq!(s.counter_value(), 4);
}

#[test]
fn get_after_add_customer_yields_equal_record() {
    let mut s = Store::new();
    let added = s.add_customer("Ann".to_string(), "ann@x.com".to_string(), "111".to_string(), 42)
        .unwrap();
    let got = s.get_customer(added.id).unwrap();
    assert_eq!(got, added);
    assert_eq!(got.created_at, 42);
}

#[test]
fn get_after_add_interaction_yields_equal_record() {
    let mut s = Store::new();
    let added = s.add_interaction(payload(7, "Meeting", "notes"), 99).unwrap();
    let got = s.get_interaction(added.id).unwrap();
    assert_eq!(got, added);
    assert_eq!(got.customer_id, 7);
    assert_eq!(got.created_at, 99);
    assert_eq!(got.updated_at, None);
}

#[test]
fn delete_customer_then_get_and_delete_again() {
    let mut s = Store::new();
    let added = s.add_customer("Ann".to_string(), "ann@x.com".to_string(), "111".to_string(), 1)
        .unwrap();
    let deleted = s.delete_customer(added.id).unwrap();
    assert_eq!(deleted, added);
    assert!(matches!(s.get_customer(added.id), Err(Error::NotFound { .. })));
    assert!(matches!(s.delete_customer(added.id), Err(Error::NotFound { .. })));
}

#[test]
fn delete_interaction_then_get_and_delete_again() {
    let mut s = Store::new();
    let added = s.add_interaction(payload(1, "Call", "x"), 1).unwrap();
    let deleted = s.delete_interaction(added.id).unwrap();
    assert_eq!(deleted, added);
    assert!(matches!(s.get_interaction(added.id), Err(Error::NotFound { .. })));
    assert!(matches!(s.delete_interaction(added.id), Err(Error::NotFound { .. })));
}

#[test]
fn update_interaction_refreshes_updated_at() {
    let mut s = Store::new();
    let added = s.add_interaction(payload(1, "Call", "first"), 100).unwrap();
    assert_eq!(added.updated_at, None);
    let u1 = s.update_interaction(added.id, payload(9, "Email", "second"), 150).unwrap();
    assert_eq!(u1.updated_at, Some(150));
    assert_eq!(u1.created_at, 100);
    assert!(u1.updated_at.unwrap() >= u1.created_at);
    // the owning customer never changes on update
    assert_eq!(u1.customer_id, 1);
    assert_eq!(u1.interaction_type, "Email");
    assert_eq!(u1.content, "second");
    // a repeated update under a coarse clock holds the stamp equal
    let u2 = s.update_interaction(added.id, payload(1, "Email", "third"), 150).unwrap();
    assert_eq!(u2.updated_at, Some(150));
    // a later update strictly advances it
    let u3 = s.update_interaction(added.id, payload(1, "Email", "fourth"), 200).unwrap();
    assert_eq!(u3.updated_at, Some(200));
    assert!(u3.updated_at.unwrap() >= u2.updated_at.unwrap());
    let got = s.get_interaction(added.id).unwrap();
    assert_eq!(got, u3);
}

#[test]
fn update_customer_persists_the_new_fields() {
    let mut s = Store::new();
    let added = s.add_customer("Ann".to_string(), "ann@x.com".to_string(), "111".to_string(), 5)
        .unwrap();
    let updated = s.update_customer(
        added.id,
        "Anne".to_string(),
        "anne@x.com".to_string(),
        "999".to_string(),
    ).unwrap();
    assert_eq!(updated.id, added.id);
    assert_eq!(updated.created_at, 5);
    let got = s.get_customer(added.id).unwrap();
    assert_eq!(got, updated);
    assert_eq!(got.name, "Anne");
    assert_eq!(got.email, "anne@x.com");
    assert_eq!(got.phone, "999");
}

#[test]
fn add_customer_validation() {
    let mut s = Store::new();
    let r = s.add_customer("A".to_string(), "no-at-sign".to_string(), "555".to_string(), 0);
    assert!(matches!(r, Err(Error::InvalidInput { .. })));
    // a rejected payload mints no id
    assert_eq!(s.counter_value(), 0);
    let r = s.add_customer("A".to_string(), "a@b.com".to_string(), "555".to_string(), 0);
    assert!(r.is_ok());
    let r = s.add_customer("A".to_string(), "a@b.com".to_string(), "no digits".to_string(), 0);
    assert!(matches!(r, Err(Error::InvalidInput { .. })));
}

#[test]
fn add_interaction_validation() {
    let mut s = Store::new();
    let r = s.add_interaction(payload(1, "", "x"), 0);
    assert!(matches!(r, Err(Error::InvalidInput { .. })));
    let r = s.add_interaction(payload(1, "Call", ""), 0);
    assert!(matches!(r, Err(Error::InvalidInput { .. })));
    let r = s.add_interaction(payload(1, "Call", "x"), 0);
    assert!(r.is_ok());
}

#[test]
fn update_validates_before_checking_existence() {
    let mut s = Store::new();
    // invalid input on a nonexistent id yields InvalidInput, not NotFound
    let r = s.update_customer(77, "A".to_string(), "bad".to_string(), "555".to_string());
    assert!(matches!(r, Err(Error::InvalidInput { .. })));
    let r = s.update_customer(77, "A".to_string(), "a@b.com".to_string(), "555".to_string());
    assert!(matches!(r, Err(Error::NotFound { .. })));
    let r = s.update_interaction(77, payload(1, "", ""), 0);
    assert!(matches!(r, Err(Error::InvalidInput { .. })));
    let r = s.update_interaction(77, payload(1, "Call", "x"), 0);
    assert!(matches!(r, Err(Error::NotFound { .. })));
}

#[test]
fn interaction_may_reference_missing_customer() {
    let mut s = Store::new();
    // referential integrity is deliberately unchecked
    let added = s.add_interaction(payload(12345, "Call", "x"), 0).unwrap();
    assert_eq!(added.customer_id, 12345);
    assert!(matches!(s.get_customer(12345), Err(Error::NotFound { .. })));
    assert!(s.get_interaction(added.id).is_ok());
}

#[test]
fn do_insert_overwrites_in_place() {
    let mut s = Store::new();
    let added = s.add_customer("Ann".to_string(), "ann@x.com".to_string(), "111".to_string(), 1)
        .unwrap();
    let mut changed = s._get_customer(added.id).unwrap();
    changed.phone = "777".to_string();
    s.do_insert_customer(&changed);
    assert_eq!(s._get_customer(added.id).unwrap().phone, "777");
    let made = s.add_interaction(payload(added.id, "Call", "x"), 2).unwrap();
    let mut changed = s._get_interaction(made.id).unwrap();
    changed.content = "y".to_string();
    s.do_insert_interaction(&changed);
    assert_eq!(s._get_interaction(made.id).unwrap().content, "y");
}

#[test]
fn email_validity_means_an_at_sign() {
    assert!(is_valid_email("a@b"));
    assert!(is_valid_email("@"));
    assert!(!is_valid_email("plain"));
    assert!(!is_valid_email(""));
}

#[test]
fn phone_validity_means_a_numeric_character() {
    assert!(is_valid_phone("555"));
    assert!(is_valid_phone("call 5 now"));
    assert!(!is_valid_phone("abc"));
    assert!(!is_valid_phone(""));
    // Unicode numerals count as numeric characters
    assert!(is_valid_phone("٥"));
}

#[test]
fn decimal_rendering_is_exact() {
    assert_eq!(u64_to_decimal(0), "0");
    assert_eq!(u64_to_decimal(7), "7");
    assert_eq!(u64_to_decimal(10), "10");
    assert_eq!(u64_to_decimal(907), "907");
    assert_eq!(u64_to_decimal(u64::MAX), "18446744073709551615");
}

#[test]
fn not_found_messages_name_the_id() {
    let s = Store::new();
    match s.get_customer(42) {
        Err(Error::NotFound { msg }) => assert_eq!(msg, "a customer with id=42 not found"),
        other => panic!("expected NotFound, got {:?}", other),
    }
    match s.get_interaction(7) {
        Err(Error::NotFound { msg }) => assert_eq!(msg, "an interaction with id=7 not found"),
        other => panic!("expected NotFound, got {:?}", other),
    }
}

#[test]
fn payload_validity_means_nonempty_type_and_content() {
    assert!(is_valid_interaction_payload(&payload(1, "Call", "x")));
    assert!(!is_valid_interaction_payload(&payload(1, "", "x")));
    assert!(!is_valid_interaction_payload(&payload(1, "Call", "")));
}
