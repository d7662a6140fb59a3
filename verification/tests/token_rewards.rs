use event_ledgers::error::LedgerError;
use event_ledgers::principal::{Authorization, Principal};
use event_ledgers::token_rewards::{RewardToken, TokenRewards};

fn admin() -> Principal {
    Principal::account(0, 1)
}

fn user(n: u128) -> Principal {
    Principal::account(3, n)
}

fn by_admin() -> Authorization {
    Authorization::of(admin())
}

fn ledger(total_supply: i128) -> TokenRewards {
    let mut ledger = TokenRewards::new();
    ledger
        .init(admin(), String::from("R"), String::from("R"), 0, total_supply)
        .unwrap();
    ledger
}

fn held(ledger: &TokenRewards, holders: &[Principal]) -> i128 {
    let mut sum = 0;
    for h in holders {
        sum += ledger.balance(*h);
    }
    sum
}

#[test]
fn ledger_before_init() {
    let mut ledger = TokenRewards::new();
    assert_eq!(ledger.token_info(), Err(LedgerError::NotInitialized));
    assert_eq!(ledger.get_admin(), Err(LedgerError::NotInitialized));
    assert_eq!(ledger.balance(admin()), 0);
    assert_eq!(ledger.get_event_reward(5), 0);
    assert!(!ledger.has_claimed_reward(user(1), 5));
    assert_eq!(ledger.mint(&by_admin(), admin(), 5), Err(LedgerError::NotInitialized));
    assert_eq!(
        ledger.set_event_reward(&by_admin(), admin(), 5, 100),
        Err(LedgerError::NotInitialized)
    );
    assert_eq!(
        ledger.batch_distribute_rewards(&by_admin(), admin(), 5, &vec![user(1)]),
        Err(LedgerError::NotInitialized)
    );
    assert_eq!(
        ledger.claim_event_reward(&Authorization::of(user(1)), user(1), 5),
        Err(LedgerError::NoRewardConfigured)
    );
    assert_eq!(
        ledger.transfer(&Authorization::of(user(1)), user(1), user(2), 1),
        Err(LedgerError::InsufficientBalance)
    );
}

#[test]
fn init_credits_the_supply_to_the_admin() {
    let ledger = ledger(1000);
    assert_eq!(
        ledger.token_info(),
        Ok(RewardToken {
            name: String::from("R"),
            symbol: String::from("R"),
            decimals: 0,
            total_supply: 1000,
        })
    );
    assert_eq!(ledger.get_admin(), Ok(admin()));
    assert_eq!(ledger.balance(admin()), 1000);
    assert_eq!(ledger.balance(user(1)), 0);
}

#[test]
fn ledger_is_initialized_once() {
    let mut ledger = ledger(1000);
    assert_eq!(
        ledger.init(user(1), String::from("S"), String::from("S"), 2, 5),
        Err(LedgerError::AlreadyInitialized)
    );
    assert_eq!(ledger.get_admin(), Ok(admin()));
    assert_eq!(ledger.token_info().unwrap().total_supply, 1000);
    assert_eq!(ledger.balance(user(1)), 0);
    assert_eq!(ledger.balance(admin()), 1000);
}

#[test]
fn balances_add_up_to_the_supply_after_every_call() {
    let mut ledger = ledger(1000);
    let everyone = [admin(), user(1), user(2), user(3)];
    assert_eq!(held(&ledger, &everyone), 1000);

    assert_eq!(ledger.mint(&by_admin(), admin(), 250), Ok(()));
    assert_eq!(ledger.token_info().unwrap().total_supply, 1250);
    assert_eq!(held(&ledger, &everyone), 1250);

    assert_eq!(ledger.transfer(&by_admin(), admin(), user(1), 300), Ok(()));
    assert_eq!(held(&ledger, &everyone), 1250);

    assert_eq!(ledger.set_event_reward(&by_admin(), admin(), 9, 40), Ok(()));
    assert_eq!(ledger.claim_event_reward(&Authorization::of(user(2)), user(2), 9), Ok(40));
    assert_eq!(held(&ledger, &everyone), 1250);

    assert_eq!(
        ledger.batch_distribute_rewards(&by_admin(), admin(), 9, &vec![user(1), user(2), user(3)]),
        Ok(vec![40, 0, 40])
    );
    assert_eq!(held(&ledger, &everyone), 1250);

    // refused calls change nothing
    assert_eq!(
        ledger.transfer(&Authorization::of(user(3)), user(3), user(1), 41),
        Err(LedgerError::InsufficientBalance)
    );
    assert_eq!(ledger.mint(&Authorization::of(user(1)), user(1), 10), Err(LedgerError::Unauthorized));
    assert_eq!(held(&ledger, &everyone), 1250);

    assert_eq!(ledger.mint(&by_admin(), admin(), 50), Ok(()));
    assert_eq!(ledger.token_info().unwrap().total_supply, 1300);
    assert_eq!(held(&ledger, &everyone), 1300);
    assert_eq!(ledger.balance(admin()), 1000 + 250 - 300 - 40 - 80 + 50);
    assert_eq!(ledger.balance(user(1)), 340);
    assert_eq!(ledger.balance(user(2)), 40);
    assert_eq!(ledger.balance(user(3)), 40);
}

#[test]
fn reward_is_claimed_once() {
    let mut ledger = ledger(1000);
    assert_eq!(ledger.set_event_reward(&by_admin(), admin(), 5, 100), Ok(()));
    assert_eq!(ledger.get_event_reward(5), 100);
    let auth = Authorization::of(user(1));
    assert!(!ledger.has_claimed_reward(user(1), 5));
    assert_eq!(ledger.claim_event_reward(&auth, user(1), 5), Ok(100));
    assert!(ledger.has_claimed_reward(user(1), 5));
    assert_eq!(ledger.balance(user(1)), 100);
    assert_eq!(ledger.balance(admin()), 900);
    for _ in 0..3 {
        assert_eq!(ledger.claim_event_reward(&auth, user(1), 5), Err(LedgerError::AlreadyClaimed));
        assert_eq!(ledger.balance(user(1)), 100);
        assert_eq!(ledger.balance(admin()), 900);
    }
    // a new amount does not reopen the claim
    assert_eq!(ledger.set_event_reward(&by_admin(), admin(), 5, 7), Ok(()));
    assert_eq!(ledger.claim_event_reward(&auth, user(1), 5), Err(LedgerError::AlreadyClaimed));
    // another event is another claim
    assert_eq!(ledger.set_event_reward(&by_admin(), admin(), 6, 7), Ok(()));
    assert_eq!(ledger.claim_event_reward(&auth, user(1), 6), Ok(7));
    assert!(!ledger.has_claimed_reward(user(2), 5));
}

#[test]
fn claim_refusals() {
    let mut ledger = ledger(50);
    let auth = Authorization::of(user(1));
    assert_eq!(
        ledger.claim_event_reward(&Authorization::none(), user(1), 5),
        Err(LedgerError::Unauthorized)
    );
    assert_eq!(ledger.claim_event_reward(&auth, user(1), 5), Err(LedgerError::NoRewardConfigured));
    assert_eq!(ledger.set_event_reward(&by_admin(), admin(), 5, 0), Ok(()));
    assert_eq!(ledger.claim_event_reward(&auth, user(1), 5), Err(LedgerError::NoRewardConfigured));
    assert_eq!(ledger.set_event_reward(&by_admin(), admin(), 5, 51), Ok(()));
    assert_eq!(ledger.claim_event_reward(&auth, user(1), 5), Err(LedgerError::InsufficientPool));
    assert!(!ledger.has_claimed_reward(user(1), 5));
    assert_eq!(ledger.balance(user(1)), 0);
    assert_eq!(ledger.balance(admin()), 50);
    assert_eq!(ledger.set_event_reward(&by_admin(), admin(), 5, 50), Ok(()));
    assert_eq!(ledger.claim_event_reward(&auth, user(1), 5), Ok(50));
    assert_eq!(ledger.balance(admin()), 0);
}

#[test]
fn admin_claims_from_its_own_pool() {
    let mut ledger = ledger(1000);
    assert_eq!(ledger.set_event_reward(&by_admin(), admin(), 5, 100), Ok(()));
    assert_eq!(ledger.claim_event_reward(&by_admin(), admin(), 5), Ok(100));
    assert_eq!(ledger.balance(admin()), 1000);
    assert!(ledger.has_claimed_reward(admin(), 5));
    assert_eq!(ledger.token_info().unwrap().total_supply, 1000);
}

#[test]
fn only_the_admin_sets_rewards() {
    let mut ledger = ledger(1000);
    assert_eq!(
        ledger.set_event_reward(&Authorization::of(user(1)), user(1), 5, 100),
        Err(LedgerError::Unauthorized)
    );
    assert_eq!(
        ledger.set_event_reward(&Authorization::of(user(1)), admin(), 5, 100),
        Err(LedgerError::Unauthorized)
    );
    assert_eq!(ledger.get_event_reward(5), 0);
    assert_eq!(ledger.set_event_reward(&by_admin(), admin(), 5, 100), Ok(()));
    assert_eq!(ledger.set_event_reward(&by_admin(), admin(), 5, 60), Ok(()));
    assert_eq!(ledger.get_event_reward(5), 60);
    assert_eq!(ledger.get_event_reward(6), 0);
}

#[test]
fn batch_pays_three_recipients() {
    let mut ledger = TokenRewards::new();
    ledger.init(admin(), String::from("R"), String::from("R"), 0, 0).unwrap();
    assert_eq!(ledger.mint(&by_admin(), admin(), 1000), Ok(()));
    assert_eq!(ledger.set_event_reward(&by_admin(), admin(), 5, 100), Ok(()));
    let recipients = vec![user(1), user(2), user(3)];
    assert_eq!(
        ledger.batch_distribute_rewards(&by_admin(), admin(), 5, &recipients),
        Ok(vec![100, 100, 100])
    );
    assert_eq!(ledger.balance(admin()), 700);
    for r in &recipients {
        assert_eq!(ledger.balance(*r), 100);
        assert!(ledger.has_claimed_reward(*r, 5));
    }
    assert_eq!(ledger.token_info().unwrap().total_supply, 1000);
}

#[test]
fn batch_passes_over_those_paid_before() {
    let mut ledger = ledger(1000);
    assert_eq!(ledger.set_event_reward(&by_admin(), admin(), 5, 100), Ok(()));
    assert_eq!(ledger.claim_event_reward(&Authorization::of(user(2)), user(2), 5), Ok(100));
    assert_eq!(
        ledger.batch_distribute_rewards(
            &by_admin(),
            admin(),
            5,
            &vec![user(1), user(2), user(1), user(3)]
        ),
        Ok(vec![100, 0, 0, 100])
    );
    assert_eq!(ledger.balance(admin()), 700);
    assert_eq!(ledger.balance(user(1)), 100);
    assert_eq!(ledger.balance(user(2)), 100);
    assert_eq!(ledger.balance(user(3)), 100);
}

#[test]
fn batch_pool_check_counts_every_recipient() {
    let mut ledger = ledger(150);
    assert_eq!(ledger.set_event_reward(&by_admin(), admin(), 5, 100), Ok(()));
    assert_eq!(ledger.claim_event_reward(&Authorization::of(user(1)), user(1), 5), Ok(100));
    // 50 are left; one of the two was paid before, yet both are counted
    assert_eq!(ledger.mint(&by_admin(), admin(), 100), Ok(()));
    assert_eq!(ledger.balance(admin()), 150);
    assert_eq!(
        ledger.batch_distribute_rewards(&by_admin(), admin(), 5, &vec![user(1), user(2)]),
        Err(LedgerError::InsufficientPool)
    );
    assert_eq!(ledger.balance(admin()), 150);
    assert_eq!(ledger.balance(user(2)), 0);
    assert!(!ledger.has_claimed_reward(user(2), 5));
    assert_eq!(
        ledger.batch_distribute_rewards(&by_admin(), admin(), 5, &vec![user(2)]),
        Ok(vec![100])
    );
    assert_eq!(ledger.balance(admin()), 50);
}

#[test]
fn batch_refusals() {
    let mut ledger = ledger(1000);
    let recipients = vec![user(1)];
    assert_eq!(
        ledger.batch_distribute_rewards(&by_admin(), admin(), 5, &recipients),
        Err(LedgerError::NoRewardConfigured)
    );
    assert_eq!(ledger.set_event_reward(&by_admin(), admin(), 5, 100), Ok(()));
    assert_eq!(
        ledger.batch_distribute_rewards(&Authorization::of(user(1)), user(1), 5, &recipients),
        Err(LedgerError::Unauthorized)
    );
    assert_eq!(
        ledger.batch_distribute_rewards(&Authorization::none(), admin(), 5, &recipients),
        Err(LedgerError::Unauthorized)
    );
    assert_eq!(ledger.set_event_reward(&by_admin(), admin(), 5, i128::MAX), Ok(()));
    assert_eq!(
        ledger.batch_distribute_rewards(&by_admin(), admin(), 5, &vec![user(1), user(2)]),
        Err(LedgerError::InsufficientPool)
    );
    assert_eq!(ledger.balance(user(1)), 0);
    assert_eq!(
        ledger.batch_distribute_rewards(&by_admin(), admin(), 5, &Vec::new()),
        Ok(Vec::new())
    );
}

#[test]
fn batch_with_the_admin_among_the_recipients() {
    let mut ledger = ledger(1000);
    assert_eq!(ledger.set_event_reward(&by_admin(), admin(), 5, 100), Ok(()));
    assert_eq!(
        ledger.batch_distribute_rewards(&by_admin(), admin(), 5, &vec![user(1), admin(), user(2)]),
        Ok(vec![100, 100, 100])
    );
    assert_eq!(ledger.balance(admin()), 800);
    assert_eq!(ledger.balance(user(1)), 100);
    assert_eq!(ledger.balance(user(2)), 100);
    assert!(ledger.has_claimed_reward(admin(), 5));
}

#[test]
fn transfer_moves_the_amount() {
    let mut ledger = ledger(1000);
    assert_eq!(ledger.transfer(&by_admin(), admin(), user(1), 400), Ok(()));
    assert_eq!(ledger.balance(admin()), 600);
    assert_eq!(ledger.balance(user(1)), 400);
    assert_eq!(ledger.transfer(&Authorization::of(user(1)), user(1), user(2), 400), Ok(()));
    assert_eq!(ledger.balance(user(1)), 0);
    assert_eq!(ledger.balance(user(2)), 400);
    assert_eq!(ledger.token_info().unwrap().total_supply, 1000);
}

#[test]
fn transfer_of_more_than_is_held() {
    let mut ledger = ledger(1000);
    assert_eq!(ledger.transfer(&by_admin(), admin(), user(1), 400), Ok(()));
    assert_eq!(
        ledger.transfer(&Authorization::of(user(1)), user(1), user(2), 401),
        Err(LedgerError::InsufficientBalance)
    );
    assert_eq!(ledger.balance(user(1)), 400);
    assert_eq!(ledger.balance(user(2)), 0);
}

#[test]
fn transfer_refusals() {
    let mut ledger = ledger(1000);
    assert_eq!(
        ledger.transfer(&Authorization::of(user(1)), admin(), user(1), 10),
        Err(LedgerError::Unauthorized)
    );
    assert_eq!(
        ledger.transfer(&by_admin(), admin(), user(1), 0),
        Err(LedgerError::InvalidAmount)
    );
    assert_eq!(
        ledger.transfer(&by_admin(), admin(), user(1), -5),
        Err(LedgerError::InvalidAmount)
    );
    assert_eq!(ledger.balance(admin()), 1000);
    assert_eq!(ledger.balance(user(1)), 0);
}

#[test]
fn transfer_to_oneself_changes_nothing() {
    let mut ledger = ledger(1000);
    assert_eq!(ledger.transfer(&by_admin(), admin(), admin(), 1000), Ok(()));
    assert_eq!(ledger.balance(admin()), 1000);
    assert_eq!(
        ledger.transfer(&by_admin(), admin(), admin(), 1001),
        Err(LedgerError::InsufficientBalance)
    );
}

#[test]
fn mint_grows_supply_and_admin_balance() {
    let mut ledger = ledger(1000);
    assert_eq!(ledger.mint(&by_admin(), admin(), 1), Ok(()));
    assert_eq!(ledger.balance(admin()), 1001);
    assert_eq!(ledger.token_info().unwrap().total_supply, 1001);
    assert_eq!(ledger.token_info().unwrap().name, "R");
    assert_eq!(
        ledger.mint(&Authorization::of(user(1)), admin(), 1),
        Err(LedgerError::Unauthorized)
    );
    assert_eq!(
        ledger.mint(&Authorization::of(user(1)), user(1), 1),
        Err(LedgerError::Unauthorized)
    );
    assert_eq!(ledger.token_info().unwrap().total_supply, 1001);
}

#[test]
fn mint_beyond_the_integer_range() {
    let mut ledger = ledger(1000);
    assert_eq!(ledger.mint(&by_admin(), admin(), i128::MAX), Err(LedgerError::Overflow));
    assert_eq!(ledger.balance(admin()), 1000);
    assert_eq!(ledger.token_info().unwrap().total_supply, 1000);
    assert_eq!(ledger.mint(&by_admin(), admin(), i128::MAX - 1000), Ok(()));
    assert_eq!(ledger.balance(admin()), i128::MAX);
    assert_eq!(ledger.mint(&by_admin(), admin(), 1), Err(LedgerError::Overflow));
}

#[test]
fn negative_amounts_are_taken_as_given() {
    let mut ledger = ledger(1000);
    assert_eq!(ledger.mint(&by_admin(), admin(), -400), Ok(()));
    assert_eq!(ledger.balance(admin()), 600);
    assert_eq!(ledger.token_info().unwrap().total_supply, 600);
    assert_eq!(ledger.set_event_reward(&by_admin(), admin(), 5, -10), Ok(()));
    assert_eq!(ledger.claim_event_reward(&Authorization::of(user(1)), user(1), 5), Ok(-10));
    assert_eq!(ledger.balance(admin()), 610);
    assert_eq!(ledger.balance(user(1)), -10);
    assert_eq!(ledger.balance(admin()) + ledger.balance(user(1)), 600);
}
