use pricefetch::price_fetch::PriceFetch;

/// The pallet's storage starts empty, as a fresh test externality does.
#[test]
fn tests_it_works_for_default_value() {
    let state = PriceFetch::new();
    assert_eq!(1, 1);
    assert!(state.src_price_pts().is_empty());
    assert!(state.agg_price_pts().is_empty());
}
