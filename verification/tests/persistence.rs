use crm_store::codec::{encode_customer, decode_customer, encode_interaction, decode_interaction,
    customer_encoding_fits, interaction_encoding_fits};
use crm_store::records::{Customer, Interaction, InteractionPayload};
use crm_store::region::BackingStore;
use crm_store::store::Store;

fn sample_store() -> Store {
    let mut s = Store::new();
    s.add_customer("Žofia 😀".to_string(), "zofia@x.com".to_string(), "+421 905".to_string(), 10)
        .unwrap();
    s.add_interaction(
        InteractionPayload {
            customer_id: 1,
            interaction_type: "Call".to_string(),
            content: "first čall".to_string(),
        },
        11,
    ).unwrap();
    s.add_customer("Bob".to_string(), "bob@x.com".to_string(), "222".to_string(), 12).unwrap();
    s.update_interaction(
        2,
        InteractionPayload {
            customer_id: 1,
            interaction_type: "Email".to_string(),
            content: "followed up".to_string(),
        },
        13,
    ).unwrap();
    s.add_interaction(
        InteractionPayload {
            customer_id: 3,
            interaction_type: "Meeting".to_string(),
            content: "notes".to_string(),
        },
        14,
    ).unwrap();
    s.delete_interaction(4).unwrap();
    s
}

fn assert_same_contents(a: &Store, b: &Store) {
    assert_eq!(a.counter_value(), b.counter_value());
    for id in 0..=a.counter_value() + 1 {
        assert_eq!(a._get_customer(id), b._get_customer(id));
        assert_eq!(a._get_interaction(id), b._get_interaction(id));
    }
}

#[test]
fn reload_from_persisted_regions_recovers_everything() {
    let s = sample_store();
    let mut backing = BackingStore::new();
    s.persist(&mut backing);
    let reloaded = Store::load(&backing).expect("a persisted image always loads");
    assert_same_contents(&s, &reloaded);
    // the recovered counter keeps minting fresh ids
    let mut reloaded = reloaded;
    let c = reloaded.add_customer(
        "Eve".to_string(),
        "eve@x.com".to_string(),
        "444".to_string(),
        20,
    ).unwrap();
    assert_eq!(c.id, 5);
}

#[test]
fn reload_from_one_flat_byte_image() {
    let s = sample_store();
    let mut backing = BackingStore::new();
    s.persist(&mut backing);
    let image: Vec<u8> = backing.to_bytes();
    let recovered = BackingStore::from_bytes(image.as_slice()).expect("a flat image reads back");
    let reloaded = Store::load(&recovered).expect("recovered regions load");
    assert_same_contents(&s, &reloaded);
}

#[test]
fn empty_store_reloads_empty() {
    let s = Store::new();
    let mut backing = BackingStore::new();
    s.persist(&mut backing);
    let reloaded = Store::load(&backing).expect("an empty image loads");
    assert_eq!(reloaded.counter_value(), 0);
    assert!(reloaded._get_customer(1).is_none());
    assert!(reloaded._get_interaction(1).is_none());
}

#[test]
fn fresh_backing_holds_no_store() {
    // a brand-new backing store has empty regions: nothing to load yet
    let backing = BackingStore::new();
    assert!(Store::load(&backing).is_none());
}

#[test]
fn corrupt_region_is_rejected_on_load() {
    let s = sample_store();
    let mut backing = BackingStore::new();
    s.persist(&mut backing);
    backing.write_region(2, vec![7, 7, 7]);
    assert!(Store::load(&backing).is_none());
}

#[test]
fn unminted_id_in_a_region_is_rejected_on_load() {
    let s = sample_store();
    let mut backing = BackingStore::new();
    s.persist(&mut backing);
    // a counter far below the stored ids cannot have minted them
    backing.write_region(0, vec![0, 0, 0, 0, 0, 0, 0, 0]);
    assert!(Store::load(&backing).is_none());
}

#[test]
fn regions_are_isolated() {
    let s = sample_store();
    let mut backing = BackingStore::new();
    s.persist(&mut backing);
    let interactions_before = backing.read_region(1).clone();
    let counter_before = backing.read_region(0).clone();
    backing.write_region(2, vec![1, 2, 3]);
    assert_eq!(backing.read_region(1), &interactions_before);
    assert_eq!(backing.read_region(0), &counter_before);
}

#[test]
fn customer_codec_round_trip() {
    let c = Customer {
        id: 42,
        name: "Žofia 😀".to_string(),
        email: "z@x".to_string(),
        phone: "½5".to_string(),
        created_at: 7,
    };
    let bytes = encode_customer(&c);
    assert!(bytes.len() <= 1024);
    let back = decode_customer(bytes.as_slice()).expect("an encoding decodes");
    assert_eq!(back, c);
    // a truncated encoding is rejected
    assert!(decode_customer(&bytes[..bytes.len() - 1]).is_none());
    assert!(decode_customer(&[]).is_none());
}

#[test]
fn interaction_codec_round_trip() {
    let with_update = Interaction {
        id: 9,
        customer_id: 42,
        interaction_type: "Email".to_string(),
        content: "ünïcode".to_string(),
        created_at: 5,
        updated_at: Some(6),
    };
    let bytes = encode_interaction(&with_update);
    let back = decode_interaction(bytes.as_slice()).expect("an encoding decodes");
    assert_eq!(back, with_update);
    let without_update = Interaction { updated_at: None, ..with_update };
    let bytes = encode_interaction(&without_update);
    let back = decode_interaction(bytes.as_slice()).expect("an encoding decodes");
    assert_eq!(back, without_update);
}

#[test]
fn encoding_size_ceiling() {
    assert!(customer_encoding_fits("Ann", "ann@x.com", "111"));
    let long = "x".repeat(2000);
    assert!(!customer_encoding_fits(&long, "a@b", "5"));
    // the ceiling counts UTF-8 bytes, not characters
    let wide = "😀".repeat(300);
    assert!(!customer_encoding_fits(&wide, "a@b", "5"));
    assert!(interaction_encoding_fits("Call", "short note"));
    assert!(!interaction_encoding_fits("Call", &long));
}
