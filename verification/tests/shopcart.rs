use shopcart::cart::{parseCart, saveCart, Cart, Carts};
use shopcart::checkout::{add_to_cart, checkout, checkout_fits};
use shopcart::codec::{format_line, parse_i64, ParseError};
use shopcart::store::{parseStore, saveItem, Reservation, Store, Stores};

fn cart(id: i64, name: &[u8], quantity: i64, outcome: i64) -> Cart {
    Cart { id, name: name.to_vec(), quantity, outcome }
}

fn store(id: i64, name: &[u8], quantity: i64, price: i64) -> Store {
    Store { id, name: name.to_vec(), quantity, price }
}

#[test]
fn round_trip_cart_line() {
    let line = format_line(5, b"Apple", 3, 15);
    assert_eq!(line, b"5,Apple,3,15\n".to_vec());
    let r = parseCart(&line).unwrap();
    assert_eq!(r.id, 5);
    assert_eq!(r.name, b"Apple".to_vec());
    assert_eq!(r.quantity, 3);
    assert_eq!(r.outcome, 15);
}

#[test]
fn round_trip_store_line_negative_numbers() {
    let line = format_line(-7, b"Odd item", -2, i64::MIN);
    let r = parseStore(&line).unwrap();
    assert_eq!(r.id, -7);
    assert_eq!(r.name, b"Odd item".to_vec());
    assert_eq!(r.quantity, -2);
    assert_eq!(r.price, i64::MIN);
}

#[test]
fn save_is_idempotent() {
    let mut carts = Carts::new();
    carts.addCart(cart(2, b"Pear", 4, 8));
    carts.addCart(cart(1, b"Apple", 1, 5));
    let first = saveCart(&carts);
    let second = saveCart(&carts);
    assert_eq!(first, second);
}

#[test]
fn save_omits_zero_quantity() {
    let mut carts = Carts::new();
    carts.addCart(cart(1, b"Apple", 0, 5));
    carts.addCart(cart(2, b"Pear", 4, 8));
    let text = saveCart(&carts);
    assert_eq!(text, b"id,name,stock,outcome\n2,Pear,4,8\n".to_vec());
}

#[test]
fn save_store_omits_zero_quantity() {
    let mut stores = Stores::new();
    stores.addItem(store(3, b"Plum", 0, 9));
    stores.addItem(store(1, b"Apple", 2, 5));
    let text = saveItem(&stores);
    assert_eq!(text, b"id,name,stock,price\n1,Apple,2,5\n".to_vec());
}

#[test]
fn insert_overwrites_by_id() {
    let mut carts = Carts::new();
    carts.addCart(cart(7, b"Old", 1, 10));
    carts.addCart(cart(7, b"New", 2, 20));
    let v = carts.into_vec();
    assert_eq!(v.len(), 1);
    assert_eq!(v[0].name, b"New".to_vec());
    assert_eq!(v[0].quantity, 2);
    assert_eq!(v[0].outcome, 20);
}

#[test]
fn reserve_rejects_excess_quantity() {
    let mut stores = Stores::new();
    stores.addItem(store(1, b"Apple", 5, 3));
    let r = stores.reserve(1, 6);
    assert!(matches!(r, Reservation::InsufficientStock));
    // no mutation: the stock is still 5
    assert_eq!(stores.availability(1).unwrap().quantity, 5);
}

#[test]
fn reserve_rejects_zero_stock() {
    let mut stores = Stores::new();
    stores.addItem(store(1, b"Apple", 0, 3));
    let r = stores.reserve(1, 0);
    assert!(matches!(r, Reservation::InsufficientStock));
}

#[test]
fn reserve_rejects_unknown_id() {
    let stores = Stores::new();
    let r = stores.reserve(9, 1);
    assert!(matches!(r, Reservation::NotFound));
}

#[test]
fn reserve_success_reports_total_and_remaining() {
    let mut stores = Stores::new();
    stores.addItem(store(1, b"Apple", 10, 5));
    match stores.reserve(1, 3) {
        Reservation::Reserved { item, total } => {
            assert_eq!(total, 15);
            assert_eq!(item.id, 1);
            assert_eq!(item.name, b"Apple".to_vec());
            assert_eq!(item.quantity, 7);
            assert_eq!(item.price, 5);
        }
        _ => panic!("reservation should succeed"),
    }
    // the catalog itself is untouched until the caller inserts the item
    assert_eq!(stores.availability(1).unwrap().quantity, 10);
}

#[test]
fn checkout_conserves_stock_and_total() {
    let mut stores = Stores::new();
    stores.addItem(store(1, b"A", 10, 5));
    let mut carts = Carts::new();
    carts.addCart(cart(1, b"A", 3, 15));
    assert!(checkout_fits(&stores, &carts));
    let (new_stores, total) = checkout(&stores, &carts);
    assert_eq!(total, 15);
    let v = new_stores.into_vec();
    assert_eq!(v.len(), 1);
    assert_eq!(v[0].quantity, 7);
    assert_eq!(v[0].price, 5);
    // checkout always clears the cart: the persisted cart is header-only
    assert_eq!(saveCart(&Carts::new()), b"id,name,stock,outcome\n".to_vec());
}

#[test]
fn checkout_skips_unknown_id() {
    let mut stores = Stores::new();
    stores.addItem(store(1, b"A", 10, 5));
    let mut carts = Carts::new();
    carts.addCart(cart(2, b"B", 3, 15));
    let (new_stores, total) = checkout(&stores, &carts);
    assert_eq!(total, 0);
    let v = new_stores.into_vec();
    assert_eq!(v.len(), 1);
    assert_eq!(v[0].id, 1);
    assert_eq!(v[0].quantity, 10);
}

#[test]
fn checkout_skips_insufficient_stock() {
    let mut stores = Stores::new();
    stores.addItem(store(1, b"A", 2, 5));
    stores.addItem(store(2, b"B", 8, 3));
    let mut carts = Carts::new();
    carts.addCart(cart(1, b"A", 3, 15));
    carts.addCart(cart(2, b"B", 4, 12));
    let (new_stores, total) = checkout(&stores, &carts);
    assert_eq!(total, 12);
    let v = new_stores.into_vec();
    assert_eq!(v[0].quantity, 2);
    assert_eq!(v[1].quantity, 4);
}

#[test]
fn add_to_cart_rejects_excess_quantity() {
    let mut stores = Stores::new();
    stores.addItem(store(1, b"Apple", 2, 5));
    let mut carts = Carts::new();
    let r = add_to_cart(&stores, &mut carts, 1, 3);
    assert!(r.is_none());
    assert_eq!(carts.into_vec().len(), 0);
}

#[test]
fn add_to_cart_rejects_unknown_id() {
    let stores = Stores::new();
    let mut carts = Carts::new();
    let r = add_to_cart(&stores, &mut carts, 1, 1);
    assert!(r.is_none());
    assert_eq!(carts.into_vec().len(), 0);
}

#[test]
fn add_to_cart_computes_outcome() {
    let mut stores = Stores::new();
    stores.addItem(store(1, b"Apple", 10, 5));
    let mut carts = Carts::new();
    let r = add_to_cart(&stores, &mut carts, 1, 3);
    assert_eq!(r, Some(15));
    let v = carts.into_vec();
    assert_eq!(v.len(), 1);
    assert_eq!(v[0].id, 1);
    assert_eq!(v[0].name, b"Apple".to_vec());
    assert_eq!(v[0].quantity, 3);
    assert_eq!(v[0].outcome, 15);
}

#[test]
fn add_to_cart_overwrites_prior_line() {
    let mut stores = Stores::new();
    stores.addItem(store(1, b"Apple", 10, 5));
    let mut carts = Carts::new();
    add_to_cart(&stores, &mut carts, 1, 3);
    add_to_cart(&stores, &mut carts, 1, 2);
    let v = carts.into_vec();
    assert_eq!(v.len(), 1);
    assert_eq!(v[0].quantity, 2);
    assert_eq!(v[0].outcome, 10);
}

#[test]
fn export_sorts_by_ascending_id() {
    let mut carts = Carts::new();
    carts.addCart(cart(5, b"E", 1, 1));
    carts.addCart(cart(1, b"A", 1, 1));
    carts.addCart(cart(3, b"C", 1, 1));
    let ids: Vec<i64> = carts.into_vec().iter().map(|c| c.id).collect();
    assert_eq!(ids, vec![1, 3, 5]);
}

#[test]
fn next_id_is_one_past_the_highest() {
    let mut carts = Carts::new();
    assert_eq!(carts.next_Id(), 1);
    carts.addCart(cart(5, b"E", 1, 1));
    carts.addCart(cart(2, b"B", 1, 1));
    assert_eq!(carts.next_Id(), 6);
}

#[test]
fn parse_reports_bad_integer() {
    assert_eq!(parseCart(b"abc,Name,2,3").unwrap_err(), ParseError::BadInt);
    assert_eq!(parseCart(b"1,Name,x,3").unwrap_err(), ParseError::BadInt);
    assert_eq!(parseCart(b"1,Name,2,x").unwrap_err(), ParseError::BadInt);
    // out of the i64 range is not a valid integer either
    assert_eq!(parseCart(b"9223372036854775808,N,1,1").unwrap_err(), ParseError::BadInt);
}

#[test]
fn parse_reports_missing_fields() {
    assert_eq!(parseCart(b"1").unwrap_err(), ParseError::MissingName);
    assert_eq!(parseCart(b"1,,2,3").unwrap_err(), ParseError::MissingName);
    assert_eq!(parseCart(b"1,Name").unwrap_err(), ParseError::MissingQuantity);
    assert_eq!(parseCart(b"1,Name,2").unwrap_err(), ParseError::MissingOutcome);
}

#[test]
fn parse_trims_only_the_last_field() {
    let r = parseCart(b"1,Name,2, 33 ").unwrap();
    assert_eq!(r.outcome, 33);
    assert_eq!(parseCart(b"1,Name, 2 ,3").unwrap_err(), ParseError::BadInt);
}

#[test]
fn parse_ignores_extra_trailing_fields() {
    let r = parseStore(b"1,Name,2,3,junk,more").unwrap();
    assert_eq!(r.id, 1);
    assert_eq!(r.price, 3);
}

#[test]
fn parse_i64_accepts_signs_and_bounds() {
    assert_eq!(parse_i64(b"+5"), Some(5));
    assert_eq!(parse_i64(b"-5"), Some(-5));
    assert_eq!(parse_i64(b"9223372036854775807"), Some(i64::MAX));
    assert_eq!(parse_i64(b"-9223372036854775808"), Some(i64::MIN));
    assert_eq!(parse_i64(b"-9223372036854775809"), None);
    assert_eq!(parse_i64(b""), None);
    assert_eq!(parse_i64(b"-"), None);
    assert_eq!(parse_i64(b"1 2"), None);
}

#[test]
fn load_skips_bad_lines_and_keeps_the_rest() {
    let text = b"1,Apple,3,15\n\nnot a line\n2,Pear,4,8\n";
    let (carts, diags) = shopcart::cart::parseCarts(text, false);
    assert_eq!(diags.len(), 0);
    let v = carts.into_vec();
    assert_eq!(v.len(), 2);
    assert_eq!(v[0].id, 1);
    assert_eq!(v[1].id, 2);
}

#[test]
fn verbose_load_reports_line_number_and_text() {
    let text = b"1,Apple,3,15\nbroken\n2,Pear,4,8\n";
    let (_, diags) = shopcart::store::parseStores(text, true);
    assert_eq!(diags.len(), 1);
    assert_eq!(diags[0].line, 2);
    assert_eq!(diags[0].error, ParseError::BadInt);
    assert_eq!(diags[0].text, b"broken".to_vec());
}

#[test]
fn load_keeps_the_last_record_per_id() {
    let text = b"1,First,3,15\n1,Second,4,20\n";
    let (carts, _) = shopcart::cart::parseCarts(text, false);
    let v = carts.into_vec();
    assert_eq!(v.len(), 1);
    assert_eq!(v[0].name, b"Second".to_vec());
    assert_eq!(v[0].quantity, 4);
}

#[test]
fn checkout_fits_rejects_total_overflow() {
    let mut stores = Stores::new();
    stores.addItem(store(1, b"A", 10, 1));
    stores.addItem(store(2, b"B", 10, 1));
    let mut carts = Carts::new();
    carts.addCart(cart(1, b"A", 1, i64::MAX));
    carts.addCart(cart(2, b"B", 1, i64::MAX));
    assert!(!checkout_fits(&stores, &carts));
    // a single line of outcome i64::MAX still fits
    let mut one = Carts::new();
    one.addCart(cart(1, b"A", 1, i64::MAX));
    assert!(checkout_fits(&stores, &one));
    let (_, total) = checkout(&stores, &one);
    assert_eq!(total, i64::MAX);
}
