use matchengine::decimal::Decimal;
use matchengine::order::{MarketKeyAsk, MarketKeyBid};

fn zero() -> Decimal {
    Decimal { mantissa: 0 }
}

fn one() -> Decimal {
    Decimal { mantissa: 1_000_000_000 }
}

#[test]
fn test_order_sort() {
    {
        let o1 = MarketKeyBid {
            order_price: zero(),
            order_id: 5,
        };
        let o2 = MarketKeyBid {
            order_price: zero(),
            order_id: 6,
        };
        let o3 = MarketKeyBid {
            order_price: one(),
            order_id: 7,
        };
        assert!(o1 < o2);
        assert!(o3 < o2);
    }
    {
        let o1 = MarketKeyAsk {
            order_price: zero(),
            order_id: 5,
        };
        let o2 = MarketKeyAsk {
            order_price: zero(),
            order_id: 6,
        };
        let o3 = MarketKeyAsk {
            order_price: one(),
            order_id: 7,
        };
        assert!(o1 < o2);
        assert!(o3 > o2);
    }
}
