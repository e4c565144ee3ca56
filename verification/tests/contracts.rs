use phala_trie_storage::balances::{
    Balances, BalancesTransfer, Command, Error, MessageOrigin, Request, Response,
    TransactionError, BALANCES,
};
use phala_trie_storage::service::{
    join_exit_reason, step_vm, Command as VmCommand, ExitReason, VmAction, VmEvent,
};

fn acct(s: &str) -> Vec<u8> {
    s.as_bytes().to_vec()
}

fn minted(pairs: &[(&str, u128)]) -> Balances {
    let mut ledger = Balances::new();
    let pallet = MessageOrigin::Pallet(acct("balances"));
    let mut egress = Vec::new();
    for (who, amount) in pairs {
        let r = ledger.handle_command(
            &pallet,
            Command::TransferToTee { who: acct(who), amount: *amount },
            &mut egress,
        );
        assert_eq!(r, Ok(()));
    }
    assert!(egress.is_empty());
    ledger
}

#[test]
fn new_ledger_is_empty() {
    let ledger = Balances::new();
    assert_eq!(ledger.total_issuance, 0);
    assert_eq!(ledger.id(), BALANCES);
    assert_eq!(ledger.balance_of(&acct("alice")), None);
}

#[test]
fn mint_and_transfer() {
    let mut ledger = minted(&[("alice", 100), ("bob", 50)]);
    assert_eq!(ledger.total_issuance, 150);
    let mut egress = Vec::new();
    let r = ledger.handle_command(
        &MessageOrigin::AccountId(acct("alice")),
        Command::Transfer { dest: acct("bob"), value: 30 },
        &mut egress,
    );
    assert_eq!(r, Ok(()));
    assert_eq!(ledger.balance_of(&acct("alice")), Some(70));
    assert_eq!(ledger.balance_of(&acct("bob")), Some(80));
    assert_eq!(ledger.total_issuance, 150);
    assert!(egress.is_empty());
}

#[test]
fn transfer_to_fresh_account() {
    let mut ledger = minted(&[("alice", 100)]);
    let mut egress = Vec::new();
    let r = ledger.handle_command(
        &MessageOrigin::AccountId(acct("alice")),
        Command::Transfer { dest: acct("carol"), value: 25 },
        &mut egress,
    );
    assert_eq!(r, Ok(()));
    assert_eq!(ledger.balance_of(&acct("alice")), Some(75));
    assert_eq!(ledger.balance_of(&acct("carol")), Some(25));
}

#[test]
fn transfer_to_chain_burns_and_emits() {
    let mut ledger = minted(&[("alice", 100)]);
    let mut egress = Vec::new();
    let r = ledger.handle_command(
        &MessageOrigin::AccountId(acct("alice")),
        Command::TransferToChain { dest: acct("dest-on-chain"), value: 40 },
        &mut egress,
    );
    assert_eq!(r, Ok(()));
    assert_eq!(ledger.balance_of(&acct("alice")), Some(60));
    assert_eq!(ledger.total_issuance, 60);
    assert_eq!(
        egress,
        vec![BalancesTransfer { dest: acct("dest-on-chain"), amount: 40 }]
    );
}

#[test]
fn transfer_errors() {
    let mut ledger = minted(&[("alice", 10)]);
    let mut egress = Vec::new();
    // A pallet may not transfer between accounts.
    let r = ledger.handle_command(
        &MessageOrigin::Pallet(acct("balances")),
        Command::Transfer { dest: acct("bob"), value: 1 },
        &mut egress,
    );
    assert_eq!(r, Err(TransactionError::BadOrigin));
    // An unknown account holds no balance.
    let r = ledger.handle_command(
        &MessageOrigin::AccountId(acct("nobody")),
        Command::Transfer { dest: acct("bob"), value: 1 },
        &mut egress,
    );
    assert_eq!(r, Err(TransactionError::NoBalance));
    // More than the held balance cannot leave.
    let r = ledger.handle_command(
        &MessageOrigin::AccountId(acct("alice")),
        Command::Transfer { dest: acct("bob"), value: 11 },
        &mut egress,
    );
    assert_eq!(r, Err(TransactionError::InsufficientBalance));
    // Only a pallet mints.
    let r = ledger.handle_command(
        &MessageOrigin::AccountId(acct("alice")),
        Command::TransferToTee { who: acct("alice"), amount: 1 },
        &mut egress,
    );
    assert_eq!(r, Err(TransactionError::BadOrigin));
    assert_eq!(ledger.balance_of(&acct("alice")), Some(10));
    assert_eq!(ledger.total_issuance, 10);
    assert!(egress.is_empty());
}

#[test]
fn query_free_balance() {
    let mut ledger = minted(&[("alice", 42)]);
    let alice = acct("alice");
    let r = ledger.handle_query(
        Some(&alice),
        Request::FreeBalance { account: acct("alice") },
    );
    assert_eq!(r, Response::FreeBalance { balance: 42 });
    // An account no one funded reads as zero.
    let bob = acct("bob");
    let r = ledger.handle_query(Some(&bob), Request::FreeBalance { account: acct("bob") });
    assert_eq!(r, Response::FreeBalance { balance: 0 });
}

#[test]
fn query_requires_authorization() {
    let mut ledger = minted(&[("alice", 42)]);
    let bob = acct("bob");
    let r = ledger.handle_query(
        Some(&bob),
        Request::FreeBalance { account: acct("alice") },
    );
    assert_eq!(r, Response::Error("not authorized".to_string()));
    let r = ledger.handle_query(None, Request::FreeBalance { account: acct("alice") });
    assert_eq!(r, Response::Error("not authorized".to_string()));
}

#[test]
fn query_total_issuance() {
    let mut ledger = minted(&[("alice", 42), ("bob", 8)]);
    let r = ledger.handle_query(None, Request::TotalIssuance);
    assert_eq!(r, Response::TotalIssuance { total_issuance: 50 });
}

#[test]
fn error_messages() {
    assert_eq!(Error::NotAuthorized.message(), "not authorized");
    assert_eq!(Error::Other("backend gone".to_string()).message(), "backend gone");
}

#[test]
fn vm_step_decisions() {
    assert_eq!(
        step_vm(VmEvent::CommandChannelClosed),
        VmAction::Exit(ExitReason::InputClosed)
    );
    assert_eq!(
        step_vm(VmEvent::CommandReceived(VmCommand::Stop)),
        VmAction::Exit(ExitReason::Stopped)
    );
    assert_eq!(
        step_vm(VmEvent::CommandReceived(VmCommand::PushMessage(vec![1, 2]))),
        VmAction::PushMessage(vec![1, 2])
    );
    assert_eq!(step_vm(VmEvent::MessagePushed), VmAction::Continue);
    assert_eq!(
        step_vm(VmEvent::MessagePushFailed),
        VmAction::Exit(ExitReason::Panicked)
    );
    assert_eq!(
        step_vm(VmEvent::WasmReturned(3)),
        VmAction::Exit(ExitReason::Exited(3))
    );
    assert_eq!(step_vm(VmEvent::WasmFailed), VmAction::Exit(ExitReason::Panicked));
    assert_eq!(join_exit_reason(true), ExitReason::Cancelled);
    assert_eq!(join_exit_reason(false), ExitReason::Panicked);
}
