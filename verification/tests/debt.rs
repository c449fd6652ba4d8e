use rita_core::debt_keeper::{DebtAction, DebtKeeper};
use rita_core::identity::{EthAddress, Identity, WgKey};
use rita_core::int256::I256;

fn mk_id(n: u8) -> Identity {
    Identity {
        mesh_ip: 0xfd00_0000_0000_0000_0000_0000_0000_0000u128 + n as u128,
        eth_address: EthAddress { hi: n as u32, lo: n as u128 },
        wg_public_key: WgKey { hi: n as u128, lo: 1 },
    }
}

#[test]
fn charge_below_both_thresholds_is_quiet() {
    // S1: a zero net charge moves nothing and orders nothing.
    let mut d = DebtKeeper::new(100, -50, 1, 2);
    let a = mk_id(1);
    let charge = rita_core::traffic_watcher::compute_charge(10, 2, 20, 1);
    assert!(charge.is_zero());
    let r = d.apply_debt(a, charge).unwrap();
    assert_eq!(r, None);
    let rows = d.get_debts_list();
    assert_eq!(rows.len(), 1);
    assert!(rows[0].balance.is_zero());
}

#[test]
fn charge_reaching_pay_threshold_orders_payment() {
    // S2: one 120 charge against a 100 threshold pays and resets.
    let mut d = DebtKeeper::new(100, -50, 1, 2);
    let a = mk_id(1);
    let charge = rita_core::traffic_watcher::compute_charge(60, 2, 0, 1);
    let r = d.apply_debt(a, charge).unwrap();
    assert_eq!(r, Some(DebtAction::MakePayment(I256::from_i64(120))));
    assert!(d.get_debts_list()[0].balance.is_zero());
}

#[test]
fn failed_payment_is_restored_and_reordered() {
    // S3: the failure report rolls the 120 back in, which immediately
    // crosses the threshold again.
    let mut d = DebtKeeper::new(100, -50, 1, 2);
    let a = mk_id(1);
    let r = d.apply_debt(a, I256::from_i64(120)).unwrap();
    assert_eq!(r, Some(DebtAction::MakePayment(I256::from_i64(120))));
    let r = d.payment_sent(a, I256::from_i64(120), false).unwrap();
    assert_eq!(r, Some(DebtAction::MakePayment(I256::from_i64(120))));
    assert!(d.get_debts_list()[0].balance.is_zero());
}

#[test]
fn successful_payment_only_moves_the_books() {
    let mut d = DebtKeeper::new(100, -50, 1, 2);
    let a = mk_id(1);
    d.apply_debt(a, I256::from_i64(3)).unwrap();
    let r = d.payment_sent(a, I256::from_i64(7), true).unwrap();
    assert_eq!(r, None);
    let rows = d.get_debts_list();
    assert_eq!(rows[0].balance, I256::from_i64(3));
    assert_eq!(rows[0].total_paid, I256::from_i64(7));
}

#[test]
fn deep_debt_closes_tunnel() {
    // S4: -60 against a -50 close threshold severs the tunnel.
    let mut d = DebtKeeper::new(100, -50, 1, 2);
    let b = mk_id(2);
    let r = d.apply_debt(b, I256::from_i64(-60)).unwrap();
    assert_eq!(r, Some(DebtAction::CloseTunnel));
    assert_eq!(d.get_debts_list()[0].balance, I256::from_i64(-60));
}

#[test]
fn repayment_past_hysteresis_reopens() {
    // S5: 40 received brings -60 to -20, above -50 * 1/2 = -25.
    let mut d = DebtKeeper::new(100, -50, 1, 2);
    let b = mk_id(2);
    assert_eq!(
        d.apply_debt(b, I256::from_i64(-60)).unwrap(),
        Some(DebtAction::CloseTunnel)
    );
    let r = d.payment_received(b, I256::from_i64(40)).unwrap();
    assert_eq!(r, Some(DebtAction::OpenTunnel));
    assert_eq!(d.get_debts_list()[0].balance, I256::from_i64(-20));
}

#[test]
fn repayment_short_of_hysteresis_stays_closed() {
    // -60 + 30 = -30 is still at or below -50 * 1/2 = -25: no reopen,
    // and a second payment clearing the bar reopens exactly once.
    let mut d = DebtKeeper::new(100, -50, 1, 2);
    let b = mk_id(2);
    d.apply_debt(b, I256::from_i64(-60)).unwrap();
    let r = d.payment_received(b, I256::from_i64(30)).unwrap();
    assert_eq!(r, None);
    let r = d.payment_received(b, I256::from_i64(10)).unwrap();
    assert_eq!(r, Some(DebtAction::OpenTunnel));
}

#[test]
fn pay_threshold_boundary() {
    // Exactly the threshold pays; one below does not.
    let mut d = DebtKeeper::new(100, -50, 1, 2);
    let a = mk_id(1);
    assert_eq!(
        d.apply_debt(a, I256::from_i64(100)).unwrap(),
        Some(DebtAction::MakePayment(I256::from_i64(100)))
    );
    let mut d2 = DebtKeeper::new(100, -50, 1, 2);
    assert_eq!(d2.apply_debt(a, I256::from_i64(99)).unwrap(), None);
}

#[test]
fn charges_sum_when_no_payment_triggers() {
    // Debt monotonicity: below the threshold the balance is the sum.
    let mut d = DebtKeeper::new(1000, -5000, 1, 2);
    let a = mk_id(1);
    for amount in [7i64, -3, 20, 0, 11] {
        d.apply_debt(a, I256::from_i64(amount)).unwrap();
    }
    assert_eq!(d.get_debts_list()[0].balance, I256::from_i64(35));
}

#[test]
fn charge_and_payment_cancel_in_either_order() {
    // Payment commutativity: the peer consumes 30 of our upstream
    // (charge -30) and pays 30 for it, in either order.
    let a = mk_id(1);
    let mut d1 = DebtKeeper::new(100, -50, 1, 2);
    d1.apply_debt(a, I256::from_i64(-30)).unwrap();
    d1.payment_received(a, I256::from_i64(30)).unwrap();
    assert!(d1.get_debts_list()[0].balance.is_zero());
    let mut d2 = DebtKeeper::new(100, -50, 1, 2);
    d2.payment_received(a, I256::from_i64(30)).unwrap();
    d2.apply_debt(a, I256::from_i64(-30)).unwrap();
    assert!(d2.get_debts_list()[0].balance.is_zero());
}

#[test]
fn balance_overflow_is_reported_not_wrapped() {
    let mut d = DebtKeeper::new(100, -50, 1, 2);
    let a = mk_id(1);
    // Drive the balance to the very bottom of the range by hand, then
    // one more debit must refuse.
    let near_min = I256 {
        negative: true,
        mag_hi: 0x7fffffffffffffffffffffffffffffffu128,
        mag_lo: u128::MAX,
    };
    d.apply_debt(a, near_min).unwrap();
    let r = d.apply_debt(a, I256::from_i64(-1));
    assert!(r.is_err());
    // The failed call left the balance as it was.
    assert_eq!(d.get_debts_list()[0].balance, near_min);
}

#[test]
fn debts_list_is_sorted_and_complete() {
    let mut d = DebtKeeper::new(100, -50, 1, 2);
    for n in [3u8, 1, 2] {
        d.apply_debt(mk_id(n), I256::from_i64(n as i64)).unwrap();
    }
    let rows = d.get_debts_list();
    assert_eq!(rows.len(), 3);
    assert_eq!(rows[0].identity, mk_id(1));
    assert_eq!(rows[1].identity, mk_id(2));
    assert_eq!(rows[2].identity, mk_id(3));
    assert_eq!(rows[1].balance, I256::from_i64(2));
}

#[test]
fn it_works() {
    // A first debt above the payment threshold triggers a payment of
    // the full amount: pay at 5, close at -10, debt of 7.
    let eth = "0xde0B295669a9FD93d5F28D9Ec85E40f4cb697BAe";
    let hi = u32::from_str_radix(&eth[2..10], 16).unwrap();
    let lo = u128::from_str_radix(&eth[10..42], 16).unwrap();
    // The peer's mesh address 2001::3 as its 128-bit value.
    let ip: u128 = (0x2001u128 << 112) | 0x3;
    let ident = Identity {
        mesh_ip: ip,
        eth_address: EthAddress { hi, lo },
        wg_public_key: WgKey { hi: 0, lo: 0 },
    };
    let mut d = DebtKeeper::new(5, -10, 1, 2);
    assert_eq!(
        d.apply_debt(ident, I256::from_i64(7)).unwrap(),
        Some(DebtAction::MakePayment(I256::from_i64(7)))
    );
}

#[test]
fn int256_arithmetic_edges() {
    let max = I256 {
        negative: false,
        mag_hi: 0x7fffffffffffffffffffffffffffffffu128,
        mag_lo: u128::MAX,
    };
    assert!(max.checked_add(&I256::from_i64(1)).is_none());
    assert_eq!(max.checked_add(&I256::from_i64(0)).unwrap(), max);
    assert_eq!(max.checked_sub(&max).unwrap(), I256::zero());
    let a = I256::from_i128(-5);
    let b = I256::from_u128(12);
    let s = a.checked_add(&b).unwrap();
    assert_eq!(s, I256::from_i64(7));
    assert!(a.lt(&b));
    assert!(!b.lt(&a));
    assert_eq!(a.neg(), I256::from_i64(5));
}
