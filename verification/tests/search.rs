use crm_store::records::Error;
use crm_store::store::Store;

fn store_with_three() -> Store {
    let mut s = Store::new();
    s.add_customer("Ann".to_string(), "ann@x.com".to_string(), "111".to_string(), 1).unwrap();
    s.add_customer("Bob".to_string(), "bob@x.com".to_string(), "222".to_string(), 2).unwrap();
    s.add_customer("Ann".to_string(), "ann2@x.com".to_string(), "333".to_string(), 3).unwrap();
    s
}

#[test]
fn search_pages_through_matches_in_id_order() {
    let s = store_with_three();
    let page1 = s.search_customers(Some("Ann".to_string()), None, None, 1, 1).unwrap();
    assert_eq!(page1.total_items, 2);
    assert_eq!(page1.items.len(), 1);
    assert_eq!(page1.items[0].id, 1);
    assert_eq!(page1.items[0].email, "ann@x.com");
    let page2 = s.search_customers(Some("Ann".to_string()), None, None, 1, 2).unwrap();
    assert_eq!(page2.total_items, 2);
    assert_eq!(page2.items.len(), 1);
    assert_eq!(page2.items[0].id, 3);
    assert_eq!(page2.items[0].email, "ann2@x.com");
    let page3 = s.search_customers(Some("Ann".to_string()), None, None, 1, 3).unwrap();
    assert_eq!(page3.total_items, 2);
    assert!(page3.items.is_empty());
}

#[test]
fn search_page_zero_is_an_input_error() {
    let s = store_with_three();
    let r = s.search_customers(None, None, None, 10, 0);
    assert!(matches!(r, Err(Error::InvalidInput { .. })));
}

#[test]
fn search_without_filters_returns_everything() {
    let s = store_with_three();
    let all = s.search_customers(None, None, None, 10, 1).unwrap();
    assert_eq!(all.total_items, 3);
    assert_eq!(all.items.len(), 3);
    assert_eq!(all.items[0].id, 1);
    assert_eq!(all.items[1].id, 2);
    assert_eq!(all.items[2].id, 3);
}

#[test]
fn search_combines_filters_with_and() {
    let s = store_with_three();
    let r = s.search_customers(Some("Ann".to_string()), None, Some("333".to_string()), 10, 1)
        .unwrap();
    assert_eq!(r.total_items, 1);
    assert_eq!(r.items[0].id, 3);
    // an exact-equality mismatch filters everything out
    let r = s.search_customers(Some("Ann".to_string()), Some("bob@x.com".to_string()), None, 10, 1)
        .unwrap();
    assert_eq!(r.total_items, 0);
    assert!(r.items.is_empty());
    // filters are exact, not substring
    let r = s.search_customers(Some("An".to_string()), None, None, 10, 1).unwrap();
    assert_eq!(r.total_items, 0);
}

#[test]
fn search_empty_store() {
    let s = Store::new();
    let r = s.search_customers(None, None, None, 10, 1).unwrap();
    assert_eq!(r.total_items, 0);
    assert!(r.items.is_empty());
}

#[test]
fn search_page_size_zero_still_counts_matches() {
    let s = store_with_three();
    let r = s.search_customers(None, None, None, 0, 1).unwrap();
    assert_eq!(r.total_items, 3);
    assert!(r.items.is_empty());
}

#[test]
fn search_extreme_page_arguments_do_not_overflow() {
    let s = store_with_three();
    let r = s.search_customers(None, None, None, u64::MAX, 1).unwrap();
    assert_eq!(r.total_items, 3);
    assert_eq!(r.items.len(), 3);
    let r = s.search_customers(None, None, None, u64::MAX, u64::MAX).unwrap();
    assert_eq!(r.total_items, 3);
    assert!(r.items.is_empty());
    let r = s.search_customers(None, None, None, 2, u64::MAX).unwrap();
    assert!(r.items.is_empty());
}

#[test]
fn search_reflects_deletes_and_updates() {
    let mut s = store_with_three();
    s.delete_customer(1).unwrap();
    let r = s.search_customers(Some("Ann".to_string()), None, None, 10, 1).unwrap();
    assert_eq!(r.total_items, 1);
    assert_eq!(r.items[0].id, 3);
    s.update_customer(2, "Ann".to_string(), "bob@x.com".to_string(), "222".to_string()).unwrap();
    let r = s.search_customers(Some("Ann".to_string()), None, None, 10, 1).unwrap();
    assert_eq!(r.total_items, 2);
    assert_eq!(r.items[0].id, 2);
    assert_eq!(r.items[1].id, 3);
}
