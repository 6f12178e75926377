//! Registration, login and deposits.
use vstd::prelude::*;
use crate::ledger::{Ledger, LedgerView, User, credit_user, balance_term, order_well_formed};
use crate::errors::{EngineError, Refusal};
use crate::hash::{hash_password, password_digest};

verus! {

/// A registration or login request.
#[derive(Debug)]
pub struct RegisterModel {
    pub name: String,
    pub password: String,
}

/// A login request.
#[derive(Debug)]
pub struct LoginModel {
    pub name: String,
    pub password: String,
}

/// The identity a session remembers.
#[derive(Debug)]
pub struct RememberUserModel {
    pub id: usize,
    pub name: String,
}

/// A deposit of `cash` cents.
#[derive(Debug)]
pub struct RechargeModel {
    pub cash: u64,
}

pub open spec fn user_name_taken(users: Seq<User>, name: Seq<char>) -> bool {
    exists|i: int| 0 <= i < users.len() && (#[trigger] users[i]).name@ == name
}

/// Registers a user with a unique name, a zero balance and the stored
/// password `password_hashed`. Returns the new user's id; a taken name is a
/// bad request.
pub fn register_hashed(ledger: &mut Ledger, name: String, password_hashed: String, now: i64) -> (r: Result<usize, EngineError>)
    requires
        old(ledger).wf(),
    ensures
        final(ledger).wf(),
        match r {
            Ok(id) => {
                let u = final(ledger)@.users[id as int];
                &&& !user_name_taken(old(ledger)@.users, name@)
                &&& id == old(ledger)@.users.len()
                &&& final(ledger)@.users.len() == id + 1
                &&& final(ledger)@.users.drop_last() == old(ledger)@.users
                &&& final(ledger)@ == (LedgerView { users: final(ledger)@.users, ..old(ledger)@ })
                &&& u.id == id && u.name@ == name@ && u.balance == 0 && u.created_at == now
                &&& u.password_hashed@ == password_hashed@
            },
            Err(e) => e.refusal() == Refusal::BadRequest && user_name_taken(old(ledger)@.users, name@)
                && final(ledger)@ == old(ledger)@,
        },
{
    let mut i: usize = 0;
    while i < ledger.users.len()
        invariant
            ledger@ == old(ledger)@,
            ledger.wf(),
            i <= ledger@.users.len(),
            forall|j: int| 0 <= j < i ==> (#[trigger] ledger@.users[j]).name@ != name@,
        decreases ledger@.users.len() - i,
    {
        if ledger.users[i].name == name {
            assert((ledger@.users[i as int]).name@ == name@);
            return Err(EngineError::BadRequest("a user of that name exists".to_owned()));
        }
        i = i + 1;
    }
    let ghost v = ledger@;
    let id = ledger.users.len();
    let user = User { id, password_hashed, name, created_at: now, balance: 0 };
    ledger.users.push(user);
    proof {
        let w = ledger@;
        crate::sums::lemma_sum_push(v.users, user, balance_term());
        assert(w.users.drop_last() =~= v.users);
        assert forall|j: int| 0 <= j < w.asks.len() implies order_well_formed(#[trigger] w.asks[j], w.users.len() as int, w.stocks.len() as int, w.next_order_id) by {
            assert(order_well_formed(v.asks[j], v.users.len() as int, v.stocks.len() as int, v.next_order_id));
        }
        assert forall|j: int| 0 <= j < w.bids.len() implies order_well_formed(#[trigger] w.bids[j], w.users.len() as int, w.stocks.len() as int, w.next_order_id) by {
            assert(order_well_formed(v.bids[j], v.users.len() as int, v.stocks.len() as int, v.next_order_id));
        }
        assert(w.users_wf());
        assert(w.stocks_wf());
        assert(w.holds_wf());
        assert forall|t: usize| t < w.stocks.len() implies #[trigger] w.shares_total(t) == w.issued(t) by {
            assert(v.shares_total(t) == v.issued(t));
        }
    }
    Ok(id)
}

/// Registers a user with a unique name and a zero balance; the password is
/// stored hashed. Returns the new user's id; a taken name is a bad request.
pub fn register(ledger: &mut Ledger, reg: RegisterModel, now: i64) -> (r: Result<usize, EngineError>)
    requires
        old(ledger).wf(),
    ensures
        final(ledger).wf(),
        match r {
            Ok(id) => {
                let u = final(ledger)@.users[id as int];
                &&& !user_name_taken(old(ledger)@.users, reg.name@)
                &&& id == old(ledger)@.users.len()
                &&& final(ledger)@.users.len() == id + 1
                &&& final(ledger)@.users.drop_last() == old(ledger)@.users
                &&& final(ledger)@ == (LedgerView { users: final(ledger)@.users, ..old(ledger)@ })
                &&& u.id == id && u.name@ == reg.name@ && u.balance == 0 && u.created_at == now
                &&& u.password_hashed@ == password_digest(reg.password@)
            },
            Err(e) => e.refusal() == Refusal::BadRequest && user_name_taken(old(ledger)@.users, reg.name@)
                && final(ledger)@ == old(ledger)@,
        },
{
    let password_hashed = hash_password(reg.password.as_str());
    register_hashed(ledger, reg.name, password_hashed, now)
}

/// Logs a user in: the user whose name is `name` and whose stored password is
/// the hash of `password`. Anything else is a bad request.
pub fn login(ledger: &Ledger, user: LoginModel) -> (r: Result<RememberUserModel, EngineError>)
    requires
        ledger.wf(),
    ensures
        match r {
            Ok(m) => m.id < ledger@.users.len() && ledger@.users[m.id as int].name@ == user.name@
                && m.name@ == user.name@
                && ledger@.users[m.id as int].password_hashed@ == password_digest(user.password@),
            Err(e) => e.refusal() == Refusal::BadRequest && forall|i: int| 0 <= i < ledger@.users.len()
                ==> !((#[trigger] ledger@.users[i]).name@ == user.name@
                && ledger@.users[i].password_hashed@ == password_digest(user.password@)),
        },
{
    let hashed = hash_password(user.password.as_str());
    let mut i: usize = 0;
    while i < ledger.users.len()
        invariant
            i <= ledger@.users.len(),
            hashed@ == password_digest(user.password@),
            forall|j: int| 0 <= j < i ==> !((#[trigger] ledger@.users[j]).name@ == user.name@
                && ledger@.users[j].password_hashed@ == hashed@),
        decreases ledger@.users.len() - i,
    {
        if ledger.users[i].name == user.name && ledger.users[i].password_hashed == hashed {
            return Ok(RememberUserModel { id: i, name: user.name });
        }
        i = i + 1;
    }
    Err(EngineError::BadRequest("no such user, or a wrong password".to_owned()))
}

/// Why a deposit is refused, or `None`: an amount beyond `i64`, or one that
/// would take the cash the exchange holds past `i64::MAX`, is an internal
/// error; an unknown user is not found.
pub open spec fn recharge_refusal(v: LedgerView, user_id: usize, cash: u64) -> Option<Refusal> {
    if cash > i64::MAX {
        Some(Refusal::Internal)
    } else if user_id >= v.users.len() {
        Some(Refusal::NotFound)
    } else if v.cash_in_custody + cash > i64::MAX {
        Some(Refusal::Internal)
    } else {
        None
    }
}

/// Deposits `deposit.cash` cents to the balance of user `user_id`.
pub fn recharge(ledger: &mut Ledger, user_id: usize, deposit: RechargeModel) -> (r: Result<(), EngineError>)
    requires
        old(ledger).wf(),
    ensures
        final(ledger).wf(),
        match r {
            Ok(()) => recharge_refusal(old(ledger)@, user_id, deposit.cash) is None
                && final(ledger)@ == (LedgerView {
                    users: credit_user(old(ledger)@.users, user_id as int, deposit.cash as int),
                    cash_in_custody: (old(ledger)@.cash_in_custody + deposit.cash) as i64,
                    ..old(ledger)@
                }),
            Err(e) => recharge_refusal(old(ledger)@, user_id, deposit.cash) == Some(e.refusal())
                && final(ledger)@ == old(ledger)@,
        },
{
    if deposit.cash > i64::MAX as u64 {
        return Err(EngineError::InternalError("the amount does not fit in i64".to_owned()));
    }
    if user_id >= ledger.users.len() {
        return Err(EngineError::NotFound("no such user".to_owned()));
    }
    let cash = deposit.cash as i64;
    if ledger.cash_in_custody > i64::MAX - cash {
        return Err(EngineError::InternalError("the cash held would overflow".to_owned()));
    }
    let ghost v = ledger@;
    proof {
        crate::sums::lemma_sum_bounds_term(v.users, user_id as int, balance_term());
        assert forall|j: int| 0 <= j < v.bids.len() implies crate::ledger::reserve_term()(#[trigger] v.bids[j]) >= 0 by {
            assert(order_well_formed(v.bids[j], v.users.len() as int, v.stocks.len() as int, v.next_order_id));
            assert(v.bids[j].unfulfilled as int * v.bids[j].price as int >= 0) by (nonlinear_arith)
                requires v.bids[j].unfulfilled >= 0, v.bids[j].price > 0;
        }
        crate::sums::lemma_sum_nonneg(v.bids, crate::ledger::reserve_term());
        crate::ledger::lemma_credit_user_sum(v.users, user_id as int, cash as int);
    }
    ledger.credit_balance(user_id, cash);
    ledger.cash_in_custody = ledger.cash_in_custody + cash;
    proof {
        let w = ledger@;
        assert(w.users_wf());
        assert forall|t: usize| t < w.stocks.len() implies #[trigger] w.shares_total(t) == w.issued(t) by {
            assert(v.shares_total(t) == v.issued(t));
        }
    }
    Ok(())
}

/// What anyone may see of a user.
#[derive(Debug)]
pub struct FetchUserModel {
    pub id: usize,
    pub name: String,
    pub created_at: i64,
    pub balance: i64,
}

pub open spec fn fetched(v: LedgerView, m: FetchUserModel, i: int) -> bool {
    &&& m.id == i
    &&& m.name@ == v.users[i].name@
    &&& m.created_at == v.users[i].created_at
    &&& m.balance == v.users[i].balance
}

fn fetch(ledger: &Ledger, i: usize) -> (m: FetchUserModel)
    requires
        i < ledger@.users.len(),
    ensures
        fetched(ledger@, m, i as int),
{
    FetchUserModel {
        id: i,
        name: ledger.users[i].name.clone(),
        created_at: ledger.users[i].created_at,
        balance: ledger.users[i].balance,
    }
}

/// User `user_id`; not found when there is none.
pub fn get_user(ledger: &Ledger, user_id: usize) -> (r: Result<FetchUserModel, EngineError>)
    ensures
        match r {
            Ok(m) => user_id < ledger@.users.len() && fetched(ledger@, m, user_id as int),
            Err(e) => e.refusal() == Refusal::NotFound && user_id >= ledger@.users.len(),
        },
{
    if user_id < ledger.users.len() {
        Ok(fetch(ledger, user_id))
    } else {
        Err(EngineError::NotFound("no such user".to_owned()))
    }
}

/// The user named `name`; not found when there is none.
pub fn get_user_by_name(ledger: &Ledger, name: &String) -> (r: Result<FetchUserModel, EngineError>)
    ensures
        match r {
            Ok(m) => exists|i: int| 0 <= i < ledger@.users.len() && (#[trigger] ledger@.users[i]).name@ == name@
                && fetched(ledger@, m, i),
            Err(e) => e.refusal() == Refusal::NotFound
                && forall|i: int| 0 <= i < ledger@.users.len() ==> (#[trigger] ledger@.users[i]).name@ != name@,
        },
{
    let mut i: usize = 0;
    while i < ledger.users.len()
        invariant
            i <= ledger@.users.len(),
            forall|j: int| 0 <= j < i ==> (#[trigger] ledger@.users[j]).name@ != name@,
        decreases ledger@.users.len() - i,
    {
        if ledger.users[i].name == *name {
            let m = fetch(ledger, i);
            assert((ledger@.users[i as int]).name@ == name@);
            return Ok(m);
        }
        i = i + 1;
    }
    Err(EngineError::NotFound("no such user".to_owned()))
}

/// The logged-in user.
pub fn get_user_me(ledger: &Ledger, user: &RememberUserModel) -> (r: Result<FetchUserModel, EngineError>)
    ensures
        match r {
            Ok(m) => user.id < ledger@.users.len() && fetched(ledger@, m, user.id as int),
            Err(e) => e.refusal() == Refusal::NotFound && user.id >= ledger@.users.len(),
        },
{
    get_user(ledger, user.id)
}

} // verus!
