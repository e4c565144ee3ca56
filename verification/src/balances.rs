//! The balances ledger contract.
//!
//! Accounts are opaque byte identities mapped to 128-bit balances.  The
//! ledger's invariant ties the recorded total issuance to the sum of all
//! balances, which rules out arithmetic underflow in transfers.  Commands
//! arrive with a message origin; a transfer out of the enclave is returned
//! as an egress message for the caller to deliver.

use vstd::prelude::*;
use vstd::string::StringExecFns;
use crate::bytes::{bytes_eq, clone_bytes};
use crate::kvmap::{assoc_map, distinct_keys, lemma_assoc_map_distinct};

verus! {

/// A chain balance.
pub type Balance = u128;

/// An opaque chain account identity.
pub type AccountId = Vec<u8>;

/// The contract id of the balances contract.
pub const BALANCES: u32 = 2;

/// Who sent a command.
#[derive(Debug, PartialEq, Eq)]
pub enum MessageOrigin {
    /// A chain account.
    AccountId(AccountId),
    /// A runtime pallet, identified by its name.
    Pallet(Vec<u8>),
    /// A worker, identified by its public key.
    Worker(Vec<u8>),
}

impl MessageOrigin {
    /// Whether the sender is a runtime pallet.
    pub fn is_pallet(&self) -> (r: bool)
        ensures
            r == (self is Pallet),
    {
        matches!(self, MessageOrigin::Pallet(_))
    }
}

/// Why a command was rejected.
#[derive(Debug, PartialEq, Eq)]
pub enum TransactionError {
    /// The origin may not issue this command.
    BadOrigin,
    /// The source account holds less than the transferred value.
    InsufficientBalance,
    /// The source account holds no balance at all.
    NoBalance,
}

/// The outcome of a command.
pub type TransactionResult = Result<(), TransactionError>;

/// A command addressed to the balances contract.
#[derive(Debug, PartialEq, Eq)]
pub enum Command {
    /// Move value between two in-contract accounts.
    Transfer { dest: AccountId, value: Balance },
    /// Move value out to the chain, burning it here.
    TransferToChain { dest: AccountId, value: Balance },
    /// Credit value minted in from the chain.
    TransferToTee { who: AccountId, amount: Balance },
}

/// An egress message: value leaving the contract towards a chain account.
#[derive(Debug, PartialEq, Eq)]
pub struct BalancesTransfer {
    pub dest: AccountId,
    pub amount: Balance,
}

/// Why a query was rejected.
#[derive(Debug, PartialEq, Eq)]
pub enum Error {
    /// The caller asked about an account it does not own.
    NotAuthorized,
    /// Any other failure, described in text.
    Other(String),
}

impl Error {
    /// The error's text.
    pub fn message(&self) -> (r: String)
        ensures
            self is NotAuthorized ==> r@ == "not authorized"@,
            forall|s: String| *self == Error::Other(s) ==> r@ == s@,
    {
        match self {
            Error::NotAuthorized => String::from_str("not authorized"),
            Error::Other(e) => clone_string(e),
        }
    }
}

/// A fresh copy of a string.
fn clone_string(s: &String) -> (r: String)
    ensures
        r@ == s@,
{
    String::from_str(s.as_str())
}

/// A query addressed to the balances contract.
#[derive(Debug, PartialEq, Eq)]
pub enum Request {
    /// The free balance of one account.
    FreeBalance { account: AccountId },
    /// The total issuance of the ledger.
    TotalIssuance,
}

/// The answer to a query.
#[derive(Debug, PartialEq, Eq)]
pub enum Response {
    FreeBalance { balance: Balance },
    TotalIssuance { total_issuance: Balance },
    Error(String),
}

/// Whether a query origin owns the account it asks about.
pub open spec fn query_authorized(origin: Option<&AccountId>, account: Seq<u8>) -> bool {
    match origin {
        Some(o) => o@ == account,
        None => false,
    }
}

/// The sum of the balances of an account list.
pub open spec fn total_of(s: Seq<(Seq<u8>, Balance)>) -> int
    decreases s.len(),
{
    if s.len() == 0 {
        0
    } else {
        total_of(s.drop_last()) + s.last().1
    }
}

/// Every balance is at most the sum.
proof fn lemma_entry_le_total(s: Seq<(Seq<u8>, Balance)>, i: int)
    requires
        0 <= i < s.len(),
    ensures
        s[i].1 <= total_of(s),
        total_of(s) >= 0,
    decreases s.len(),
{
    lemma_total_nonneg(s.drop_last());
    if i < s.len() - 1 {
        assert(s.drop_last()[i] == s[i]);
        lemma_entry_le_total(s.drop_last(), i);
    }
}

/// The sum of balances is never negative.
proof fn lemma_total_nonneg(s: Seq<(Seq<u8>, Balance)>)
    ensures
        total_of(s) >= 0,
    decreases s.len(),
{
    if s.len() > 0 {
        lemma_total_nonneg(s.drop_last());
    }
}

/// Updating one balance moves the sum by the difference.
proof fn lemma_total_update(s: Seq<(Seq<u8>, Balance)>, i: int, v: Balance)
    requires
        0 <= i < s.len(),
    ensures
        total_of(s.update(i, (s[i].0, v))) == total_of(s) - s[i].1 + v,
    decreases s.len(),
{
    let s2 = s.update(i, (s[i].0, v));
    if i == s.len() - 1 {
        assert(s2.drop_last() =~= s.drop_last());
        assert(s2.last() == (s[i].0, v));
    } else {
        assert(s2.drop_last() =~= s.drop_last().update(i, (s[i].0, v)));
        assert(s2.last() == s.last());
        lemma_total_update(s.drop_last(), i, v);
        assert(s.drop_last()[i] == s[i]);
    }
}

/// Appending an account adds its balance to the sum.
proof fn lemma_total_push(s: Seq<(Seq<u8>, Balance)>, k: Seq<u8>, v: Balance)
    ensures
        total_of(s.push((k, v))) == total_of(s) + v,
{
    assert(s.push((k, v)).drop_last() =~= s);
}

/// The balances ledger: total issuance and per-account balances.
pub struct Balances {
    /// The recorded total issuance.
    pub total_issuance: Balance,
    /// The account list; keys are distinct.
    pub accounts: Vec<(AccountId, Balance)>,
}

impl Balances {
    /// The account list's view.
    pub open spec fn rep(&self) -> Seq<(Seq<u8>, Balance)> {
        self.accounts@.map_values(|p: (AccountId, Balance)| (p.0@, p.1))
    }

    /// The ledger as a map from account to balance.
    pub open spec fn balances(&self) -> Map<Seq<u8>, Balance> {
        assoc_map(self.rep())
    }

    /// Well-formed: accounts are distinct and the recorded total issuance
    /// is the sum of all balances.
    pub open spec fn wf(&self) -> bool {
        &&& distinct_keys(self.rep())
        &&& self.total_issuance == total_of(self.rep())
    }

    /// An empty ledger.
    pub fn new() -> (r: Balances)
        ensures
            r.wf(),
            r.total_issuance == 0,
            r.balances() == Map::<Seq<u8>, Balance>::empty(),
    {
        let r = Balances { total_issuance: 0, accounts: Vec::new() };
        proof {
            assert(r.rep() =~= Seq::<(Seq<u8>, Balance)>::empty());
        }
        r
    }

    /// The contract's id.
    pub fn id(&self) -> (r: u32)
        ensures
            r == BALANCES,
    {
        BALANCES
    }

    /// Where `account` sits in the list, if anywhere.
    fn find_account(&self, account: &Vec<u8>) -> (r: (usize, bool))
        ensures
            r.0 <= self.accounts@.len(),
            forall|j: int| 0 <= j < r.0 ==> (#[trigger] self.rep()[j]).0 != account@,
            r.1 ==> r.0 < self.accounts@.len() && self.rep()[r.0 as int].0 == account@,
            !r.1 ==> r.0 == self.accounts@.len(),
    {
        let mut i: usize = 0;
        while i < self.accounts.len()
            invariant
                0 <= i <= self.accounts@.len(),
                forall|j: int| 0 <= j < i ==> (#[trigger] self.rep()[j]).0 != account@,
            decreases self.accounts@.len() - i,
        {
            if bytes_eq(&self.accounts[i].0, account) {
                return (i, true);
            }
            i = i + 1;
        }
        (i, false)
    }

    /// The balance of an account, `None` where it holds none.
    pub fn balance_of(&self, account: &Vec<u8>) -> (r: Option<Balance>)
        requires
            self.wf(),
        ensures
            match r {
                Some(v) => self.balances().contains_key(account@) && v
                    == self.balances()[account@],
                None => !self.balances().contains_key(account@),
            },
    {
        proof {
            lemma_assoc_map_distinct(self.rep());
        }
        let (i, found) = self.find_account(account);
        if found {
            Some(self.accounts[i].1)
        } else {
            proof {
                if self.balances().contains_key(account@) {
                    let j = choose|j: int|
                        0 <= j < self.rep().len() && (#[trigger] self.rep()[j]).0 == account@;
                    assert(false);
                }
            }
            None
        }
    }

    /// Set the balance at a held slot.
    fn set_at(&mut self, i: usize, v: Balance)
        requires
            distinct_keys(old(self).rep()),
            i < old(self).accounts@.len(),
        ensures
            final(self).rep() == old(self).rep().update(
                i as int,
                (old(self).rep()[i as int].0, v),
            ),
            final(self).balances() == old(self).balances().insert(
                old(self).rep()[i as int].0,
                v,
            ),
            final(self).total_issuance == old(self).total_issuance,
            distinct_keys(final(self).rep()),
    {
        let ghost old_rep = self.rep();
        let account = clone_bytes(&self.accounts[i].0);
        proof {
            crate::kvmap::lemma_assoc_update(old_rep, i as int, old_rep[i as int].0, v);
        }
        self.accounts.set(i, (account, v));
        proof {
            assert(self.rep() =~= old_rep.update(i as int, (old_rep[i as int].0, v)));
            assert(distinct_keys(self.rep())) by {
                assert(forall|p: int|
                    0 <= p < old_rep.len() ==> (#[trigger] self.rep()[p]).0 == old_rep[p].0);
            }
        }
    }

    /// Handle one command from an origin.  An egress transfer, where the
    /// command produces one, is appended to `egress` for delivery.
    ///
    /// Minting must not overflow the total issuance; the caller keeps the
    /// minted amounts within the remaining headroom.
    pub fn handle_command(
        &mut self,
        origin: &MessageOrigin,
        cmd: Command,
        egress: &mut Vec<BalancesTransfer>,
    ) -> (r: TransactionResult)
        requires
            old(self).wf(),
            cmd matches Command::TransferToTee { who, amount } ==> old(self).total_issuance
                + amount <= u128::MAX,
        ensures
            final(self).wf(),
            match cmd {
                Command::Transfer { dest, value } => match r {
                    Ok(()) => {
                        &&& *origin matches MessageOrigin::AccountId(o)
                        &&& {
                            let ov = origin->AccountId_0@;
                            let m1 = old(self).balances().insert(
                                ov,
                                (old(self).balances()[ov] - value) as u128,
                            );
                            &&& old(self).balances().contains_key(ov)
                            &&& old(self).balances()[ov] >= value
                            &&& final(self).balances() == if m1.contains_key(dest@) {
                                m1.insert(dest@, (m1[dest@] + value) as u128)
                            } else {
                                m1.insert(dest@, value)
                            }
                        }
                        &&& final(self).total_issuance == old(self).total_issuance
                        &&& final(egress)@ == old(egress)@
                    },
                    Err(e) => {
                        &&& final(self).balances() == old(self).balances()
                        &&& final(self).total_issuance == old(self).total_issuance
                        &&& final(egress)@ == old(egress)@
                        &&& e is BadOrigin <==> !(*origin is AccountId)
                        &&& *origin matches MessageOrigin::AccountId(o) ==> (e is NoBalance
                            <==> !old(self).balances().contains_key(o@))
                        &&& *origin matches MessageOrigin::AccountId(o) ==> (e
                            is InsufficientBalance <==> old(self).balances().contains_key(o@)
                            && old(self).balances()[o@] < value)
                    },
                },
                Command::TransferToChain { dest, value } => match r {
                    Ok(()) => {
                        &&& *origin matches MessageOrigin::AccountId(o)
                        &&& {
                            let ov = origin->AccountId_0@;
                            &&& old(self).balances().contains_key(ov)
                            &&& old(self).balances()[ov] >= value
                            &&& final(self).balances() == old(self).balances().insert(
                                ov,
                                (old(self).balances()[ov] - value) as u128,
                            )
                        }
                        &&& final(self).total_issuance == old(self).total_issuance - value
                        &&& final(egress)@ == old(egress)@.push(
                            BalancesTransfer { dest, amount: value },
                        )
                    },
                    Err(e) => {
                        &&& final(self).balances() == old(self).balances()
                        &&& final(self).total_issuance == old(self).total_issuance
                        &&& final(egress)@ == old(egress)@
                        &&& e is BadOrigin <==> !(*origin is AccountId)
                        &&& *origin matches MessageOrigin::AccountId(o) ==> (e is NoBalance
                            <==> !old(self).balances().contains_key(o@))
                        &&& *origin matches MessageOrigin::AccountId(o) ==> (e
                            is InsufficientBalance <==> old(self).balances().contains_key(o@)
                            && old(self).balances()[o@] < value)
                    },
                },
                Command::TransferToTee { who, amount } => match r {
                    Ok(()) => {
                        &&& *origin is Pallet
                        &&& final(self).balances() == if old(self).balances().contains_key(
                            who@,
                        ) {
                            old(self).balances().insert(
                                who@,
                                (old(self).balances()[who@] + amount) as u128,
                            )
                        } else {
                            old(self).balances().insert(who@, amount)
                        }
                        &&& final(self).total_issuance == old(self).total_issuance + amount
                        &&& final(egress)@ == old(egress)@
                    },
                    Err(e) => {
                        &&& final(self).balances() == old(self).balances()
                        &&& final(self).total_issuance == old(self).total_issuance
                        &&& final(egress)@ == old(egress)@
                        &&& e is BadOrigin && !(*origin is Pallet)
                    },
                },
            },
    {
        match cmd {
            Command::Transfer { dest, value } => {
                let o = match origin {
                    MessageOrigin::AccountId(o) => o,
                    _ => {
                        return Err(TransactionError::BadOrigin);
                    },
                };
                proof {
                    lemma_assoc_map_distinct(self.rep());
                }
                let (i, found) = self.find_account(o);
                if !found {
                    proof {
                        self.lemma_absent(o@, i as int);
                    }
                    return Err(TransactionError::NoBalance);
                }
                let src0 = self.accounts[i].1;
                if src0 < value {
                    return Err(TransactionError::InsufficientBalance);
                }
                proof {
                    lemma_entry_le_total(self.rep(), i as int);
                    lemma_total_update(self.rep(), i as int, (src0 - value) as u128);
                }
                self.set_at(i, src0 - value);
                proof {
                    lemma_assoc_map_distinct(self.rep());
                }
                let (j, dfound) = self.find_account(&dest);
                if dfound {
                    let dest0 = self.accounts[j].1;
                    proof {
                        lemma_entry_le_total(self.rep(), j as int);
                        lemma_total_update(self.rep(), j as int, (dest0 + value) as u128);
                    }
                    self.set_at(j, dest0 + value);
                } else {
                    let ghost pre_rep = self.rep();
                    let ghost dv = dest@;
                    proof {
                        self.lemma_absent(dv, j as int);
                        lemma_total_push(pre_rep, dv, value);
                        lemma_entry_le_total(pre_rep, i as int);
                    }
                    self.accounts.push((dest, value));
                    proof {
                        assert(self.rep() =~= pre_rep.push((dv, value)));
                        assert(self.rep().drop_last() =~= pre_rep);
                        assert(self.rep().last() == (dv, value));
                        self.lemma_after_push();
                    }
                }
                Ok(())
            },
            Command::TransferToChain { dest, value } => {
                let o = match origin {
                    MessageOrigin::AccountId(o) => o,
                    _ => {
                        return Err(TransactionError::BadOrigin);
                    },
                };
                proof {
                    lemma_assoc_map_distinct(self.rep());
                }
                let (i, found) = self.find_account(o);
                if !found {
                    proof {
                        self.lemma_absent(o@, i as int);
                    }
                    return Err(TransactionError::NoBalance);
                }
                let src0 = self.accounts[i].1;
                if src0 < value {
                    return Err(TransactionError::InsufficientBalance);
                }
                proof {
                    lemma_entry_le_total(self.rep(), i as int);
                    lemma_total_update(self.rep(), i as int, (src0 - value) as u128);
                }
                self.set_at(i, src0 - value);
                self.total_issuance = self.total_issuance - value;
                egress.push(BalancesTransfer { dest, amount: value });
                Ok(())
            },
            Command::TransferToTee { who, amount } => {
                if !origin.is_pallet() {
                    return Err(TransactionError::BadOrigin);
                }
                proof {
                    lemma_assoc_map_distinct(self.rep());
                }
                let (i, found) = self.find_account(&who);
                if found {
                    let dest0 = self.accounts[i].1;
                    proof {
                        lemma_entry_le_total(self.rep(), i as int);
                        lemma_total_update(self.rep(), i as int, (dest0 + amount) as u128);
                    }
                    self.set_at(i, dest0 + amount);
                } else {
                    let ghost pre_rep = self.rep();
                    let ghost wv = who@;
                    proof {
                        self.lemma_absent(wv, i as int);
                        lemma_total_push(pre_rep, wv, amount);
                    }
                    self.accounts.push((who, amount));
                    proof {
                        assert(self.rep() =~= pre_rep.push((wv, amount)));
                        assert(self.rep().drop_last() =~= pre_rep);
                        assert(self.rep().last() == (wv, amount));
                        self.lemma_after_push();
                    }
                }
                self.total_issuance = self.total_issuance + amount;
                Ok(())
            },
        }
    }

    /// No slot below `n` holding `k` means `k` is absent.
    proof fn lemma_absent(&self, k: Seq<u8>, n: int)
        requires
            distinct_keys(self.rep()),
            n == self.rep().len(),
            forall|j: int| 0 <= j < n ==> (#[trigger] self.rep()[j]).0 != k,
        ensures
            !self.balances().contains_key(k),
    {
        lemma_assoc_map_distinct(self.rep());
        if self.balances().contains_key(k) {
            let j = choose|j: int| 0 <= j < self.rep().len() && (#[trigger] self.rep()[j]).0 == k;
            assert(false);
        }
    }

    /// After pushing a fresh account the list is distinct and its map
    /// gains that account.
    proof fn lemma_after_push(&self)
        requires
            self.accounts@.len() > 0,
            distinct_keys(self.rep().drop_last()),
            forall|j: int|
                0 <= j < self.rep().len() - 1 ==> (#[trigger] self.rep()[j]).0 != self.rep().last().0,
        ensures
            distinct_keys(self.rep()),
            self.balances() == assoc_map(self.rep().drop_last()).insert(
                self.rep().last().0,
                self.rep().last().1,
            ),
    {
        let s = self.rep();
        assert forall|p: int, q: int| 0 <= p < q < s.len() implies (#[trigger] s[p]).0 != (
        #[trigger] s[q]).0 by {
            if q < s.len() - 1 {
                assert(s.drop_last()[p] == s[p]);
                assert(s.drop_last()[q] == s[q]);
            } else {
                assert(s[q] == s.last());
            }
        }
    }

    /// Answer one query.  The free balance of an account is disclosed to
    /// that account alone.
    pub fn handle_query(&mut self, origin: Option<&AccountId>, req: Request) -> (r: Response)
        requires
            old(self).wf(),
        ensures
            *final(self) == *old(self),
            match req {
                Request::FreeBalance { account } => if query_authorized(origin, account@) {
                    r matches Response::FreeBalance { balance } && balance == if old(
                        self,
                    ).balances().contains_key(account@) {
                        old(self).balances()[account@]
                    } else {
                        0u128
                    }
                } else {
                    r is Error
                },
                Request::TotalIssuance => r matches Response::TotalIssuance { total_issuance }
                    && total_issuance == old(self).total_issuance,
            },
    {
        match req {
            Request::FreeBalance { account } => {
                let authorized = match origin {
                    Some(o) => bytes_eq(o, &account),
                    None => false,
                };
                if !authorized {
                    return Response::Error(Error::NotAuthorized.message());
                }
                let balance = match self.balance_of(&account) {
                    Some(v) => v,
                    None => 0,
                };
                Response::FreeBalance { balance }
            },
            Request::TotalIssuance => Response::TotalIssuance {
                total_issuance: self.total_issuance,
            },
        }
    }
}

} // verus!
