use pallet_gatos::pallet::next_count;
use pallet_gatos::{Balance, BalanceError, Balances, Dna, Error, Event, Origin, Pallet, MAX_OWNED};

const ALICE: u64 = 1;
const BOB: u64 = 2;
const ENTROPY: [u8; 8] = [7, 1, 0, 0, 0, 0, 0, 3];

fn new_test_ext() -> (Pallet, Balances) {
    (Pallet::new(), Balances::new(1))
}

fn signed(who: u64) -> Origin {
    Origin::Signed(who)
}

fn first_id(p: &Pallet) -> Dna {
    p.gato_ids()[0]
}

#[test]
fn starting_template_is_sane() {
    let (mut p, _b) = new_test_ext();
    let event = Event::Created { owner: ALICE };
    assert_eq!(event, Event::Created { owner: 1 });
    let result = p.create_gatos(signed(BOB), &ENTROPY);
    assert!(result.is_ok());
}

#[test]
fn system_and_balances_work() {
    let (_p, mut b) = new_test_ext();
    assert!(b.mint_into(ALICE, 100).is_ok());
    assert!(b.mint_into(BOB, 100).is_ok());
}

#[test]
fn create_gatos_checks_signed() {
    let (mut p, _b) = new_test_ext();
    assert!(p.create_gatos(signed(ALICE), &ENTROPY).is_ok());
    assert_eq!(p.create_gatos(Origin::Unsigned, &ENTROPY), Err(Error::BadOrigin));
    assert_eq!(p.create_gatos(Origin::Root, &ENTROPY), Err(Error::BadOrigin));
    assert_eq!(p.count_for_gatos(), 1);
}

#[test]
fn create_gatos_emits_event() {
    let (mut p, _b) = new_test_ext();
    assert!(p.create_gatos(signed(ALICE), &ENTROPY).is_ok());
    assert_eq!(p.last_event(), Some(Event::Created { owner: 1 }));
}

#[test]
fn mint_increments_count_for_gatos() {
    let (mut p, _b) = new_test_ext();
    assert_eq!(p.count_for_gatos(), 0);
    assert!(p.create_gatos(signed(ALICE), &ENTROPY).is_ok());
    assert_eq!(p.count_for_gatos(), 1);
}

#[test]
fn mint_errors_when_overflow() {
    assert_eq!(next_count(u32::MAX), Err(Error::TooManyGatos));
}

#[test]
fn gatos_map_created_correctly() {
    let (mut p, _b) = new_test_ext();
    let zero_key = [0u8; 32];
    assert!(p.gato(&zero_key).is_none());
    assert!(p.mint(0, zero_key).is_ok());
    assert!(p.gato(&zero_key).is_some());
}

#[test]
fn create_gatos_adds_to_map() {
    let (mut p, _b) = new_test_ext();
    assert!(p.create_gatos(signed(ALICE), &ENTROPY).is_ok());
    assert_eq!(p.gato_ids().len(), 1);
}

#[test]
fn cannot_mint_duplicate_gato() {
    let (mut p, _b) = new_test_ext();
    assert!(p.mint(ALICE, [0u8; 32]).is_ok());
    assert_eq!(p.mint(BOB, [0u8; 32]), Err(Error::DuplicateGato));
    assert_eq!(p.count_for_gatos(), 1);
    assert_eq!(p.gatos_owned(BOB), Vec::<Dna>::new());
}

#[test]
fn mint_stores_owner_in_kitty() {
    let (mut p, _b) = new_test_ext();
    assert!(p.mint(1337, [42u8; 32]).is_ok());
    let gato = p.gato(&[42u8; 32]).unwrap();
    assert_eq!(gato.owner, 1337);
    assert_eq!(gato.dna, [42u8; 32]);
}

#[test]
#[allow(non_snake_case)]
fn create_gato_makes_unique_Gatos() {
    let (mut p, _b) = new_test_ext();
    assert!(p.create_gatos(signed(ALICE), &ENTROPY).is_ok());
    assert!(p.create_gatos(signed(BOB), &ENTROPY).is_ok());
    assert_eq!(p.count_for_gatos(), 2);
    assert_eq!(p.gato_ids().len(), 2);
}

#[test]
fn gatos_owned_created_correctly() {
    let (mut p, _b) = new_test_ext();
    assert_eq!(p.gatos_owned(1).len(), 0);
    assert!(p.create_gatos(signed(ALICE), &ENTROPY).is_ok());
    assert!(p.create_gatos(signed(ALICE), &ENTROPY).is_ok());
    assert_eq!(p.gatos_owned(1).len(), 2);
}

#[test]
fn cannot_own_too_many_gatos() {
    let (mut p, _b) = new_test_ext();
    for _ in 0..100 {
        assert!(p.create_gatos(signed(ALICE), &ENTROPY).is_ok());
    }
    assert_eq!(p.create_gatos(signed(1), &ENTROPY), Err(Error::TooManyOwned));
}

#[test]
fn transfer_emits_event() {
    let (mut p, _b) = new_test_ext();
    assert!(p.create_gatos(signed(ALICE), &ENTROPY).is_ok());
    let gato_id = first_id(&p);
    assert!(p.transfer(signed(ALICE), BOB, gato_id).is_ok());
    assert_eq!(p.last_event(), Some(Event::Transferred { from: ALICE, to: BOB, gato_id }));
}

#[test]
fn transfer_logic_works() {
    let (mut p, _b) = new_test_ext();
    assert!(p.create_gatos(signed(ALICE), &ENTROPY).is_ok());
    let gato = p.gato(&first_id(&p)).unwrap();
    let gato_id = gato.dna;
    assert_eq!(gato.owner, ALICE);
    assert_eq!(p.gatos_owned(ALICE), vec![gato_id]);
    assert_eq!(p.gatos_owned(BOB), Vec::<Dna>::new());
    assert_eq!(p.transfer(signed(ALICE), ALICE, gato_id), Err(Error::TransferToSelf));
    assert_eq!(p.transfer(signed(ALICE), BOB, [0u8; 32]), Err(Error::NoGato));
    assert_eq!(p.transfer(signed(BOB), ALICE, gato_id), Err(Error::NotOwner));
    assert!(p.transfer(signed(ALICE), BOB, gato_id).is_ok());
    assert_eq!(p.gatos_owned(ALICE), Vec::<Dna>::new());
    assert_eq!(p.gatos_owned(BOB), vec![gato_id]);
    let gato = p.gato(&first_id(&p)).unwrap();
    assert_eq!(gato.owner, BOB);
}

#[test]
fn native_balance_associated_type_works() {
    let (_p, mut b) = new_test_ext();
    assert!(b.mint_into(ALICE, 1337).is_ok());
    assert_eq!(b.balance(ALICE), 1337);
}

#[test]
fn balance_of_type_works() {
    let example_balance: Balance = 1337u64;
    assert_eq!(example_balance, 1337);
}

#[test]
fn set_price_emits_event() {
    let (mut p, _b) = new_test_ext();
    assert!(p.create_gatos(signed(ALICE), &ENTROPY).is_ok());
    let gato_id = first_id(&p);
    assert!(p.set_price(signed(ALICE), gato_id, Some(1337)).is_ok());
    assert_eq!(
        p.last_event(),
        Some(Event::PriceSet { owner: ALICE, gato_id, new_price: Some(1337) })
    );
}

#[test]
fn set_price_logic_works() {
    let (mut p, _b) = new_test_ext();
    assert!(p.create_gatos(signed(ALICE), &ENTROPY).is_ok());
    let gato = p.gato(&first_id(&p)).unwrap();
    assert_eq!(gato.price, None);
    let gato_id = gato.dna;
    assert!(p.set_price(signed(ALICE), gato_id, Some(1337)).is_ok());
    let gato = p.gato(&gato_id).unwrap();
    assert_eq!(gato.price, Some(1337));
}

#[test]
fn do_buy_kitty_emits_event() {
    let (mut p, mut b) = new_test_ext();
    assert!(p.create_gatos(signed(ALICE), &ENTROPY).is_ok());
    let gato_id = first_id(&p);
    assert!(p.set_price(signed(ALICE), gato_id, Some(1337)).is_ok());
    assert!(b.mint_into(BOB, 100_000).is_ok());
    assert!(p.buy_gato(&mut b, signed(BOB), gato_id, 1337).is_ok());
    assert_eq!(p.last_event(), Some(Event::Sold { buyer: BOB, gato_id, price: 1337 }));
}

#[test]
fn do_buy_kitty_logic_works() {
    let (mut p, mut b) = new_test_ext();
    assert!(p.create_gatos(signed(ALICE), &ENTROPY).is_ok());
    let gato = p.gato(&first_id(&p)).unwrap();
    let gato_id = gato.dna;
    assert_eq!(gato.owner, ALICE);
    assert_eq!(p.gatos_owned(ALICE), vec![gato_id]);
    assert_eq!(p.buy_gato(&mut b, signed(BOB), [0u8; 32], 1337), Err(Error::NoGato));
    assert_eq!(p.buy_gato(&mut b, signed(BOB), gato_id, 1337), Err(Error::GatoNotForSale));
    assert!(p.set_price(signed(ALICE), gato_id, Some(1337)).is_ok());
    assert_eq!(p.buy_gato(&mut b, signed(BOB), gato_id, 1336), Err(Error::MaxPriceTooLow));
    assert_eq!(
        p.buy_gato(&mut b, signed(BOB), gato_id, 1337),
        Err(Error::Balance(BalanceError::InsufficientFunds))
    );
    assert!(b.mint_into(BOB, 1337).is_ok());
    assert!(p.buy_gato(&mut b, signed(BOB), gato_id, 1337).is_err());
    assert!(b.mint_into(BOB, 100_000).is_ok());
    assert!(p.buy_gato(&mut b, signed(BOB), gato_id, 1337).is_ok());
    assert_eq!(p.gatos_owned(BOB), vec![gato_id]);
    let gato = p.gato(&gato_id).unwrap();
    assert_eq!(gato.owner, BOB);
    assert_eq!(gato.price, None);
    assert_eq!(b.balance(ALICE), 1337);
    assert_eq!(b.balance(BOB), 100_000);
}

#[test]
fn max_owned_is_one_hundred() {
    assert_eq!(MAX_OWNED, 100);
}
