use ethy_gadget::types::{FeeExchange, FeeExchangeV1};

#[test]
fn fee_exchange_v1_holds_its_fields() {
    let inner = FeeExchangeV1 {
        asset_id: 16000,
        max_payment: 1_000_000_000_000u128,
    };
    assert_eq!(inner.asset_id, 16000);
    assert_eq!(inner.max_payment, 1_000_000_000_000u128);
}

#[test]
fn fee_exchange_versions_compare_by_contents() {
    let a = FeeExchange::V1(FeeExchangeV1 {
        asset_id: 1,
        max_payment: 5,
    });
    let b = FeeExchange::V1(FeeExchangeV1 {
        asset_id: 1,
        max_payment: 5,
    });
    let c = FeeExchange::V1(FeeExchangeV1 {
        asset_id: 2,
        max_payment: 5,
    });
    assert!(a == b);
    assert!(a != c);
    assert!(a.clone() == b.clone());
}
