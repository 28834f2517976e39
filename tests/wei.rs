use parables_testing::wei::{from_ether, from_finney, from_gwei, from_kwei, from_mwei, from_szabo, scale, IntoU256, U256};

/// A decimal number of units, with up to three decimals.
struct Decimal(f32);

impl Decimal {
    fn scaled(&self) -> (U256, usize) {
        let mut c = self.0;
        let mut n = 0usize;

        while c != c.trunc() && n < 3 {
            n += 1;
            c = c * 10f32;
        }

        let c = c.round();
        (U256::from_u64(c as u64), n)
    }
}

impl IntoU256 for Decimal {
    fn amount(&self) -> (U256, usize) {
        self.scaled()
    }

    fn into_u256(self) -> (U256, usize) {
        self.scaled()
    }
}

#[test]
fn test_conversions() {
    for i in 0..1000 {
        let finney = 1000usize + i;
        let ether = 1f32 + (i as f32) / 1000f32;

        assert_eq!(
            from_finney(finney),
            from_ether(Decimal(ether)),
            "could not handle decimal 1.{:03}",
            i
        );
    }

    assert_eq!(from_finney(1004), from_ether(Decimal(1.004)));
    assert_eq!(from_szabo(1004), from_finney(Decimal(1.004)));
    assert_eq!(from_gwei(1004), from_szabo(Decimal(1.004)));
    assert_eq!(from_mwei(1004), from_gwei(Decimal(1.004)));
    assert_eq!(from_kwei(1004), from_mwei(Decimal(1.004)));
}

#[test]
fn ether_is_ten_to_the_eighteen() {
    assert_eq!(Some(U256::from_u64(1_000_000_000_000_000_000)), from_ether(1u64));
    assert_eq!(Some(U256::from_u64(3_000)), from_kwei(3u32));
    assert_eq!(Some(U256::from_u64(0)), scale(U256::from_u64(0), 0, 5000));
}

#[test]
fn scale_refuses_what_does_not_fit() {
    assert_eq!(None, scale(U256::from_u64(1), 4, 3));
    assert_eq!(None, scale(U256([0, 0, 0, u64::MAX]), 0, 1));
    assert_eq!(Some(U256([0, 0, 0, 1])), scale(U256([0, 0, 0, 1]), 0, 0));
}

#[test]
fn negative_amounts_are_refused() {
    assert_eq!(None, from_ether(-1i32));
    assert_eq!(Some(U256::from_u64(2_000_000_000)), from_gwei(2i64));
}
