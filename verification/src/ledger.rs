//! Balance ledger behind the token contract: a list of known accounts and an
//! association from account name to balance, with sequential transfer
//! execution over it.

use vstd::prelude::*;

verus! {

/// Initial account balances handed to the contract.
#[derive(Clone, Debug, PartialEq)]
pub struct InstantiateMsg {
    pub balances: Vec<(String, u128)>,
}

/// A single balance movement between two accounts.
#[derive(Clone, Debug, PartialEq)]
pub struct Transfer {
    pub from: String,
    pub to: String,
    pub amount: u128,
}

/// Commands the contract executes.
#[derive(Clone, Debug, PartialEq)]
pub enum ExecuteMsg {
    TransferBalance { transfers: Vec<Transfer> },
}

/// Every account with its current balance.
#[derive(Clone, Debug, PartialEq)]
pub struct BalancesResp {
    pub balances: Vec<(String, u128)>,
}

/// Read-only queries the contract answers.
#[derive(Clone, Debug, PartialEq)]
pub enum QueryMsg {
    Balances {},
}

/// Failures a transfer batch can end in.
#[derive(Clone, Debug, PartialEq)]
pub enum ContractError {
    NotFound { addr: String },
    InsufficientBalance,
}

/// Spec-level mirror of `ContractError`, over character sequences.
pub ghost enum LedgerError {
    NotFound { addr: Seq<char> },
    InsufficientBalance,
}

/// Whether a concrete error carries the same information as its spec mirror.
pub open spec fn err_matches(c: ContractError, e: LedgerError) -> bool {
    match (c, e) {
        (ContractError::NotFound { addr }, LedgerError::NotFound { addr: a }) => addr@ == a,
        (ContractError::InsufficientBalance, LedgerError::InsufficientBalance) => true,
        _ => false,
    }
}

/// Whether `k` names one of the known accounts.
pub open spec fn has_account(accs: Seq<Seq<char>>, k: Seq<char>) -> bool {
    exists|i: int| 0 <= i < accs.len() && accs[i] == k
}

/// Whether the balance table holds an entry for `k`.
pub open spec fn has_key(bals: Seq<(Seq<char>, u128)>, k: Seq<char>) -> bool {
    exists|i: int| 0 <= i < bals.len() && bals[i].0 == k
}

/// The balance stored for `k`: the first matching entry, 0 when absent.
pub open spec fn lookup(bals: Seq<(Seq<char>, u128)>, k: Seq<char>) -> u128
    decreases bals.len(),
{
    if bals.len() == 0 {
        0
    } else if bals[0].0 == k {
        bals[0].1
    } else {
        lookup(bals.drop_first(), k)
    }
}

/// The balance table after storing `v` under `k`: the first matching entry is
/// replaced, or a new entry is appended.
pub open spec fn store(bals: Seq<(Seq<char>, u128)>, k: Seq<char>, v: u128) -> Seq<
    (Seq<char>, u128),
>
    decreases bals.len(),
{
    if bals.len() == 0 {
        seq![(k, v)]
    } else if bals[0].0 == k {
        seq![(k, v)] + bals.drop_first()
    } else {
        seq![bals[0]] + store(bals.drop_first(), k, v)
    }
}

/// One transfer applied to the balance table, exactly as the contract runs it:
/// both balances are read first, the sender is debited, then the receiver is
/// credited (saturating), so a self-transfer ends at `balance + amount`.
pub open spec fn apply_transfer(
    accs: Seq<Seq<char>>,
    bals: Seq<(Seq<char>, u128)>,
    t: Transfer,
) -> Result<Seq<(Seq<char>, u128)>, LedgerError> {
    if !has_account(accs, t.from@) {
        Err(LedgerError::NotFound { addr: t.from@ })
    } else if !has_account(accs, t.to@) {
        Err(LedgerError::NotFound { addr: t.to@ })
    } else if lookup(bals, t.from@) < t.amount {
        Err(LedgerError::InsufficientBalance)
    } else {
        let debited = store(bals, t.from@, (lookup(bals, t.from@) - t.amount) as u128);
        let credit = if lookup(bals, t.to@) + t.amount > u128::MAX {
            u128::MAX
        } else {
            (lookup(bals, t.to@) + t.amount) as u128
        };
        Ok(store(debited, t.to@, credit))
    }
}

/// A whole batch applied in order; the first failing transfer decides the
/// error and no later one is tried.
pub open spec fn apply_transfers(
    accs: Seq<Seq<char>>,
    bals: Seq<(Seq<char>, u128)>,
    ts: Seq<Transfer>,
) -> Result<Seq<(Seq<char>, u128)>, LedgerError>
    decreases ts.len(),
{
    if ts.len() == 0 {
        Ok(bals)
    } else {
        match apply_transfer(accs, bals, ts[0]) {
            Ok(b) => apply_transfers(accs, b, ts.drop_first()),
            Err(e) => Err(e),
        }
    }
}

/// The response listing every account with its looked-up balance, in account
/// order.
pub open spec fn balances_of(accs: Seq<Seq<char>>, bals: Seq<(Seq<char>, u128)>) -> Seq<
    (Seq<char>, u128),
> {
    Seq::new(accs.len(), |i: int| (accs[i], lookup(bals, accs[i])))
}

/// The contract's persistent state.
#[derive(Clone, Debug, PartialEq)]
pub struct Ledger {
    accounts: Vec<String>,
    balances: Vec<(String, u128)>,
}

impl Ledger {
    /// The known account names.
    pub closed spec fn accs(&self) -> Seq<Seq<char>> {
        self.accounts.deep_view()
    }

    /// The balance table.
    pub closed spec fn bals(&self) -> Seq<(Seq<char>, u128)> {
        self.balances.deep_view()
    }

    /// Every known account has a stored balance.
    pub open spec fn wf(&self) -> bool {
        forall|i: int| 0 <= i < self.accs().len() ==> has_key(self.bals(), self.accs()[i])
    }
}

/// The given balance table has an entry for `k` exactly when `has_key` says
/// so, and that entry then holds `lookup`'s value.
proof fn lemma_lookup_index(bals: Seq<(Seq<char>, u128)>, k: Seq<char>, i: int)
    requires
        0 <= i < bals.len(),
        bals[i].0 == k,
        forall|j: int| 0 <= j < i ==> bals[j].0 != k,
    ensures
        lookup(bals, k) == bals[i].1,
    decreases i,
{
    if i == 0 {
    } else {
        assert(bals.drop_first()[i - 1] == bals[i]);
        assert(forall|j: int| 0 <= j < i - 1 ==> bals.drop_first()[j] == bals[j + 1]);
        lemma_lookup_index(bals.drop_first(), k, i - 1);
    }
}

/// Storing under `k` replaces the first matching entry in place.
proof fn lemma_store_at(bals: Seq<(Seq<char>, u128)>, k: Seq<char>, v: u128, i: int)
    requires
        0 <= i < bals.len(),
        bals[i].0 == k,
        forall|j: int| 0 <= j < i ==> bals[j].0 != k,
    ensures
        store(bals, k, v) =~= bals.update(i, (k, v)),
    decreases i,
{
    if i == 0 {
        assert(store(bals, k, v) =~= bals.update(0, (k, v)));
    } else {
        assert(forall|j: int| 0 <= j < i - 1 ==> bals.drop_first()[j] == bals[j + 1]);
        assert(bals.drop_first()[i - 1] == bals[i]);
        lemma_store_at(bals.drop_first(), k, v, i - 1);
        assert(store(bals, k, v) =~= bals.update(i, (k, v)));
    }
}

/// Storing an absent key appends it.
proof fn lemma_store_absent(bals: Seq<(Seq<char>, u128)>, k: Seq<char>, v: u128)
    requires
        !has_key(bals, k),
    ensures
        store(bals, k, v) =~= bals.push((k, v)),
    decreases bals.len(),
{
    if bals.len() == 0 {
    } else {
        assert(bals[0].0 != k);
        assert(forall|j: int| 0 <= j < bals.len() - 1 ==> bals.drop_first()[j] == bals[j + 1]);
        assert(!has_key(bals.drop_first(), k));
        lemma_store_absent(bals.drop_first(), k, v);
        assert(store(bals, k, v) =~= bals.push((k, v)));
    }
}

/// After a store, the stored key is present and reads back the stored value;
/// every other key keeps its presence and value.
pub proof fn lemma_store_lookup(bals: Seq<(Seq<char>, u128)>, k: Seq<char>, v: u128)
    ensures
        has_key(store(bals, k, v), k),
        lookup(store(bals, k, v), k) == v,
        forall|k2: Seq<char>|
            k2 != k ==> #[trigger] has_key(store(bals, k, v), k2) == has_key(bals, k2),
        forall|k2: Seq<char>|
            k2 != k ==> #[trigger] lookup(store(bals, k, v), k2) == lookup(bals, k2),
    decreases bals.len(),
{
    if bals.len() == 0 {
        assert(store(bals, k, v)[0] == (k, v));
        assert forall|k2: Seq<char>| k2 != k implies #[trigger] has_key(store(bals, k, v), k2)
            == has_key(bals, k2) by {
            if has_key(store(bals, k, v), k2) {
                let i = choose|i: int|
                    0 <= i < store(bals, k, v).len() && store(bals, k, v)[i].0 == k2;
                assert(i == 0);
                assert(false);
            }
        }
        assert forall|k2: Seq<char>| k2 != k implies #[trigger] lookup(store(bals, k, v), k2)
            == lookup(bals, k2) by {
            assert(store(bals, k, v).drop_first() =~= bals);
        }
    } else if bals[0].0 == k {
        let s = store(bals, k, v);
        assert(s =~= seq![(k, v)] + bals.drop_first());
        assert(s[0] == (k, v));
        assert forall|k2: Seq<char>| k2 != k implies #[trigger] has_key(s, k2) == has_key(
            bals,
            k2,
        ) by {
            assert(forall|j: int| 1 <= j < s.len() ==> s[j] == bals[j]);
            if has_key(s, k2) {
                let i = choose|i: int| 0 <= i < s.len() && s[i].0 == k2;
                assert(i != 0);
                assert(bals[i].0 == k2);
            }
            if has_key(bals, k2) {
                let i = choose|i: int| 0 <= i < bals.len() && bals[i].0 == k2;
                assert(i != 0);
                assert(s[i].0 == k2);
            }
        }
        assert forall|k2: Seq<char>| k2 != k implies #[trigger] lookup(s, k2) == lookup(
            bals,
            k2,
        ) by {
            assert(s.drop_first() =~= bals.drop_first());
        }
    } else {
        let s = store(bals, k, v);
        assert(s =~= seq![bals[0]] + store(bals.drop_first(), k, v));
        lemma_store_lookup(bals.drop_first(), k, v);
        assert(s.drop_first() =~= store(bals.drop_first(), k, v));
        let iw = choose|i: int|
            0 <= i < store(bals.drop_first(), k, v).len() && store(bals.drop_first(), k, v)[i].0
                == k;
        assert(s[iw + 1].0 == k);
        assert(has_key(s, k));
        assert(lookup(s, k) == lookup(store(bals.drop_first(), k, v), k));
        assert forall|k2: Seq<char>| k2 != k implies #[trigger] has_key(s, k2) == has_key(
            bals,
            k2,
        ) by {
            if has_key(s, k2) {
                let i = choose|i: int| 0 <= i < s.len() && s[i].0 == k2;
                if i == 0 {
                    assert(bals[0].0 == k2);
                } else {
                    assert(store(bals.drop_first(), k, v)[i - 1].0 == k2);
                    assert(has_key(store(bals.drop_first(), k, v), k2));
                    assert(has_key(bals.drop_first(), k2));
                    let j = choose|j: int|
                        0 <= j < bals.drop_first().len() && bals.drop_first()[j].0 == k2;
                    assert(bals[j + 1].0 == k2);
                }
            }
            if has_key(bals, k2) {
                let i = choose|i: int| 0 <= i < bals.len() && bals[i].0 == k2;
                if i == 0 {
                    assert(s[0].0 == k2);
                } else {
                    assert(bals.drop_first()[i - 1].0 == k2);
                    assert(has_key(store(bals.drop_first(), k, v), k2));
                    let j = choose|j: int|
                        0 <= j < store(bals.drop_first(), k, v).len() && store(
                            bals.drop_first(),
                            k,
                            v,
                        )[j].0 == k2;
                    assert(s[j + 1].0 == k2);
                }
            }
        }
        assert forall|k2: Seq<char>| k2 != k implies #[trigger] lookup(s, k2) == lookup(
            bals,
            k2,
        ) by {
            if bals[0].0 == k2 {
                assert(lookup(s, k2) == s[0].1);
            } else {
                assert(lookup(s, k2) == lookup(s.drop_first(), k2));
                assert(lookup(bals, k2) == lookup(bals.drop_first(), k2));
            }
        }
    }
}

/// Whether `k` names one of the accounts in the list.
#[verifier::loop_isolation(false)]
fn contains_account(accounts: &Vec<String>, k: &String) -> (r: bool)
    ensures
        r == has_account(accounts.deep_view(), k@),
{
    let mut i: usize = 0;
    while i < accounts.len()
        invariant
            0 <= i <= accounts.len(),
            forall|j: int| 0 <= j < i ==> accounts.deep_view()[j] != k@,
        decreases accounts.len() - i,
    {
        if accounts[i].eq(k) {
            assert(accounts.deep_view()[i as int] == k@);
            return true;
        }
        assert(accounts.deep_view()[i as int] != k@);
        i += 1;
    }
    assert(!has_account(accounts.deep_view(), k@)) by {
        if has_account(accounts.deep_view(), k@) {
            let j = choose|j: int|
                0 <= j < accounts.deep_view().len() && accounts.deep_view()[j] == k@;
            assert(accounts.deep_view()[j] != k@);
        }
    }
    false
}

/// The stored balance for `k`, when the table has one.
#[verifier::loop_isolation(false)]
fn get_balance(balances: &Vec<(String, u128)>, k: &String) -> (r: Option<u128>)
    ensures
        r is Some <==> has_key(balances.deep_view(), k@),
        r matches Some(v) ==> v == lookup(balances.deep_view(), k@),
{
    let ghost dv = balances.deep_view();
    let mut i: usize = 0;
    while i < balances.len()
        invariant
            0 <= i <= balances.len(),
            dv == balances.deep_view(),
            forall|j: int| 0 <= j < i ==> dv[j].0 != k@,
        decreases balances.len() - i,
    {
        if balances[i].0.eq(k) {
            assert(dv[i as int].0 == k@);
            proof {
                lemma_lookup_index(dv, k@, i as int);
            }
            return Some(balances[i].1);
        }
        assert(dv[i as int].0 != k@);
        i += 1;
    }
    assert(!has_key(dv, k@)) by {
        if has_key(dv, k@) {
            let j = choose|j: int| 0 <= j < dv.len() && dv[j].0 == k@;
            assert(dv[j].0 != k@);
        }
    }
    None
}

/// Stores `v` under `k`, replacing the first matching entry or appending one.
#[verifier::loop_isolation(false)]
fn set_balance(balances: &mut Vec<(String, u128)>, k: &String, v: u128)
    ensures
        final (balances).deep_view() == store(old(balances).deep_view(), k@, v),
{
    let ghost dv = balances.deep_view();
    let mut i: usize = 0;
    while i < balances.len()
        invariant
            0 <= i <= balances.len(),
            dv == balances.deep_view(),
            forall|j: int| 0 <= j < i ==> dv[j].0 != k@,
        decreases balances.len() - i,
    {
        if balances[i].0.eq(k) {
            assert(dv[i as int].0 == k@);
            proof {
                lemma_store_at(dv, k@, v, i as int);
            }
            balances.set(i, (k.clone(), v));
            assert(balances.deep_view() =~= dv.update(i as int, (k@, v)));
            return ;
        }
        assert(dv[i as int].0 != k@);
        i += 1;
    }
    proof {
        if has_key(dv, k@) {
            let j = choose|j: int| 0 <= j < dv.len() && dv[j].0 == k@;
            assert(dv[j].0 != k@);
        }
        lemma_store_absent(dv, k@, v);
    }
    balances.push((k.clone(), v));
    assert(balances.deep_view() =~= dv.push((k@, v)));
}

/// A `NotFound` error for the given account name.
pub fn not_found(addr: String) -> (r: ContractError)
    ensures
        r matches ContractError::NotFound { addr: a } && a == addr,
{
    ContractError::NotFound { addr }
}

/// Builds the initial ledger: the account list is the message's keys in
/// order (duplicates kept, as given), and each balance is stored in order,
/// so a later duplicate key overwrites an earlier one.
#[verifier::loop_isolation(false)]
pub fn instantiate(msg: InstantiateMsg) -> (l: Ledger)
    ensures
        l.accs() == Seq::new(msg.balances.deep_view().len(), |i: int| msg.balances.deep_view()[i].0),
        l.bals() == init_balances(msg.balances.deep_view()),
        l.wf(),
{
    let ghost entries = msg.balances.deep_view();
    let mut accounts: Vec<String> = Vec::new();
    let mut i: usize = 0;
    while i < msg.balances.len()
        invariant
            0 <= i <= msg.balances.len(),
            entries == msg.balances.deep_view(),
            accounts.deep_view().len() == i,
            forall|j: int| 0 <= j < i ==> accounts.deep_view()[j] == entries[j].0,
        decreases msg.balances.len() - i,
    {
        let ghost prev = accounts@;
        let ghost prevdv = accounts.deep_view();
        accounts.push(msg.balances[i].0.clone());
        assert(accounts@ == prev.push(accounts@[i as int]));
        assert(accounts.deep_view()[i as int] == entries[i as int].0);
        assert forall|j: int| 0 <= j < i implies accounts.deep_view()[j] == entries[j].0 by {
            assert(accounts.deep_view()[j] == accounts@[j].deep_view());
            assert(accounts@[j] == prev[j]);
            assert(prevdv[j] == prev[j].deep_view());
            assert(prevdv[j] == entries[j].0);
        }
        i += 1;
    }
    assert(accounts.deep_view() =~= Seq::new(entries.len(), |j: int| entries[j].0));
    let mut balances: Vec<(String, u128)> = Vec::new();
    let mut j: usize = 0;
    while j < msg.balances.len()
        invariant
            0 <= j <= msg.balances.len(),
            entries == msg.balances.deep_view(),
            balances.deep_view() == init_balances(entries.take(j as int)),
            forall|m: int| 0 <= m < j ==> has_key(balances.deep_view(), entries[m].0),
        decreases msg.balances.len() - j,
    {
        let ghost before = balances.deep_view();
        set_balance(&mut balances, &msg.balances[j].0, msg.balances[j].1);
        proof {
            assert(entries.take(j + 1).drop_last() =~= entries.take(j as int));
            assert(entries.take(j + 1).last() == entries[j as int]);
            lemma_store_lookup(before, entries[j as int].0, entries[j as int].1);
        }
        j += 1;
    }
    proof {
        assert(entries.take(entries.len() as int) =~= entries);
    }
    let l = Ledger { accounts, balances };
    assert forall|i2: int| 0 <= i2 < l.accs().len() implies has_key(l.bals(), l.accs()[i2]) by {
        assert(l.accs()[i2] == entries[i2].0);
    }
    l
}

/// The balance table the initial entries produce, stored first to last.
pub open spec fn init_balances(entries: Seq<(Seq<char>, u128)>) -> Seq<(Seq<char>, u128)>
    decreases entries.len(),
{
    if entries.len() == 0 {
        Seq::empty()
    } else {
        store(init_balances(entries.drop_last()), entries.last().0, entries.last().1)
    }
}

/// Every account with its current balance, in account order.
pub fn balances(ledger: &Ledger) -> (r: BalancesResp)
    requires
        ledger.wf(),
    ensures
        r.balances.deep_view() == balances_of(ledger.accs(), ledger.bals()),
{
    proof {
        assert forall|i: int| 0 <= i < ledger.accounts.deep_view().len() implies has_key(
            ledger.balances.deep_view(),
            ledger.accounts.deep_view()[i],
        ) by {
            assert(has_key(ledger.bals(), ledger.accs()[i]));
        }
    }
    let r = balances_from(&ledger.accounts, &ledger.balances);
    r
}

/// Answers a query against the current state.
pub fn query(ledger: &Ledger, msg: QueryMsg) -> (r: BalancesResp)
    requires
        ledger.wf(),
    ensures
        r.balances.deep_view() == balances_of(ledger.accs(), ledger.bals()),
{
    match msg {
        QueryMsg::Balances {  } => balances(ledger),
    }
}

/// Runs a batch of transfers in order. On any failure the ledger is left
/// unchanged and the first error is returned; on success the new balances are
/// committed and reported back.
#[verifier::loop_isolation(false)]
pub fn transfer(ledger: &mut Ledger, transfers: Vec<Transfer>) -> (r: Result<
    BalancesResp,
    ContractError,
>)
    requires
        old(ledger).wf(),
    ensures
        final (ledger).accs() == old(ledger).accs(),
        final (ledger).wf(),
        match apply_transfers(old(ledger).accs(), old(ledger).bals(), transfers@) {
            Ok(b) => {
                &&& final (ledger).bals() == b
                &&& r matches Ok(resp) && resp.balances.deep_view() == balances_of(
                    old(ledger).accs(),
                    b,
                )
            },
            Err(e) => {
                &&& final (ledger).bals() == old(ledger).bals()
                &&& r matches Err(c) && err_matches(c, e)
            },
        },
{
    let ghost accs = ledger.accs();
    let ghost bals0 = ledger.bals();
    let mut working: Vec<(String, u128)> = Vec::new();
    let mut ci: usize = 0;
    while ci < ledger.balances.len()
        invariant
            0 <= ci <= ledger.balances.len(),
            bals0 == ledger.bals(),
            working.deep_view().len() == ci,
            forall|j: int| 0 <= j < ci ==> working.deep_view()[j] == bals0[j],
        decreases ledger.balances.len() - ci,
    {
        let ghost prev = working@;
        let ghost prevdv = working.deep_view();
        working.push((ledger.balances[ci].0.clone(), ledger.balances[ci].1));
        assert(working@ == prev.push(working@[ci as int]));
        assert(working.deep_view()[ci as int] == bals0[ci as int]);
        assert forall|j: int| 0 <= j < ci implies working.deep_view()[j] == bals0[j] by {
            assert(working.deep_view()[j] == working@[j].deep_view());
            assert(working@[j] == prev[j]);
            assert(prevdv[j] == prev[j].deep_view());
            assert(prevdv[j] == bals0[j]);
        }
        ci += 1;
    }
    assert(working.deep_view() =~= bals0);
    let ghost wf0 = forall|i: int| 0 <= i < accs.len() ==> has_key(bals0, accs[i]);
    let mut k: usize = 0;
    while k < transfers.len()
        invariant
            0 <= k <= transfers.len(),
            accs == ledger.accs(),
            bals0 == ledger.bals(),
            old(ledger).wf(),
            accs == old(ledger).accs(),
            bals0 == old(ledger).bals(),
            apply_transfers(accs, bals0, transfers@.take(k as int)) == Ok::<_, LedgerError>(
                working.deep_view(),
            ),
            forall|i: int| 0 <= i < accs.len() ==> has_key(working.deep_view(), accs[i]),
        decreases transfers.len() - k,
    {
        let ghost wbefore = working.deep_view();
        let t = &transfers[k];
        if !contains_account(&ledger.accounts, &t.from) {
            proof {
                lemma_apply_prefix_err(
                    accs,
                    bals0,
                    transfers@,
                    k as int,
                    wbefore,
                    LedgerError::NotFound { addr: t.from@ },
                );
            }
            return Err(ContractError::NotFound { addr: t.from.clone() });
        }
        if !contains_account(&ledger.accounts, &t.to) {
            proof {
                lemma_apply_prefix_err(
                    accs,
                    bals0,
                    transfers@,
                    k as int,
                    wbefore,
                    LedgerError::NotFound { addr: t.to@ },
                );
            }
            return Err(ContractError::NotFound { addr: t.to.clone() });
        }
        assert(has_account(accs, t.from@));
        assert(has_account(accs, t.to@));
        let bf = match get_balance(&working, &t.from) {
            Some(v) => v,
            None => {
                proof {
                    assert(false);
                }
                0
            },
        };
        let bt = match get_balance(&working, &t.to) {
            Some(v) => v,
            None => {
                proof {
                    assert(false);
                }
                0
            },
        };
        if bf < t.amount {
            proof {
                lemma_apply_prefix_err(
                    accs,
                    bals0,
                    transfers@,
                    k as int,
                    wbefore,
                    LedgerError::InsufficientBalance,
                );
            }
            return Err(ContractError::InsufficientBalance);
        }
        set_balance(&mut working, &t.from, bf - t.amount);
        let ghost wmid = working.deep_view();
        set_balance(&mut working, &t.to, bt.saturating_add(t.amount));
        proof {
            lemma_store_lookup(wbefore, t.from@, (bf - t.amount) as u128);
            lemma_store_lookup(wmid, t.to@, bt.saturating_add(t.amount));
            assert(apply_transfer(accs, wbefore, transfers@[k as int]) == Ok::<_, LedgerError>(
                working.deep_view(),
            ));
            lemma_apply_prefix_step(accs, bals0, transfers@, k as int, wbefore);
            assert forall|i: int| 0 <= i < accs.len() implies has_key(
                working.deep_view(),
                accs[i],
            ) by {
                if accs[i] != t.from@ && accs[i] != t.to@ {
                    assert(has_key(wbefore, accs[i]));
                }
            }
        }
        k += 1;
    }
    proof {
        assert(transfers@.take(transfers@.len() as int) =~= transfers@);
    }
    let resp = balances_from(&ledger.accounts, &working);
    ledger.balances = working;
    Ok(resp)
}

/// Every account paired with its balance in the given table, in order.
#[verifier::loop_isolation(false)]
fn balances_from(accounts: &Vec<String>, balances: &Vec<(String, u128)>) -> (r: BalancesResp)
    requires
        forall|i: int|
            0 <= i < accounts.deep_view().len() ==> has_key(
                balances.deep_view(),
                accounts.deep_view()[i],
            ),
    ensures
        r.balances.deep_view() == balances_of(accounts.deep_view(), balances.deep_view()),
{
    let ghost accs = accounts.deep_view();
    let ghost bals = balances.deep_view();
    let mut out: Vec<(String, u128)> = Vec::new();
    let mut i: usize = 0;
    while i < accounts.len()
        invariant
            accs == accounts.deep_view(),
            bals == balances.deep_view(),
            forall|m: int| 0 <= m < accs.len() ==> has_key(bals, accs[m]),
            0 <= i <= accounts.len(),
            out.deep_view().len() == i,
            forall|j: int| 0 <= j < i ==> out.deep_view()[j] == (accs[j], lookup(bals, accs[j])),
        decreases accounts.len() - i,
    {
        assert(has_key(bals, accs[i as int]));
        let b = get_balance(balances, &accounts[i]);
        let ghost prev = out@;
        let ghost prevdv = out.deep_view();
        match b {
            Some(v) => {
                out.push((accounts[i].clone(), v));
            },
            None => {
                proof {
                    assert(false);
                }
            },
        }
        assert(out@ == prev.push(out@[i as int]));
        assert(out.deep_view()[i as int] == (accs[i as int], lookup(bals, accs[i as int])));
        assert forall|j: int| 0 <= j < i implies out.deep_view()[j] == (
            accs[j],
            lookup(bals, accs[j]),
        ) by {
            assert(out.deep_view()[j] == out@[j].deep_view());
            assert(out@[j] == prev[j]);
            assert(prevdv[j] == prev[j].deep_view());
            assert(prevdv[j] == (accs[j], lookup(bals, accs[j])));
        }
        i += 1;
    }
    assert(out.deep_view() =~= balances_of(accs, bals));
    BalancesResp { balances: out }
}

/// Executes a command against the current state.
pub fn execute(ledger: &mut Ledger, msg: ExecuteMsg) -> (r: Result<BalancesResp, ContractError>)
    requires
        old(ledger).wf(),
    ensures
        final (ledger).accs() == old(ledger).accs(),
        final (ledger).wf(),
        msg matches ExecuteMsg::TransferBalance { transfers } ==> match apply_transfers(
            old(ledger).accs(),
            old(ledger).bals(),
            transfers@,
        ) {
            Ok(b) => {
                &&& final (ledger).bals() == b
                &&& r matches Ok(resp) && resp.balances.deep_view() == balances_of(
                    old(ledger).accs(),
                    b,
                )
            },
            Err(e) => {
                &&& final (ledger).bals() == old(ledger).bals()
                &&& r matches Err(c) && err_matches(c, e)
            },
        },
{
    match msg {
        ExecuteMsg::TransferBalance { transfers } => transfer(ledger, transfers),
    }
}

/// If applying the first `k` transfers reaches `w` and the `k`-th fails with
/// `e`, the whole batch fails with `e`.
proof fn lemma_apply_prefix_err(
    accs: Seq<Seq<char>>,
    bals: Seq<(Seq<char>, u128)>,
    ts: Seq<Transfer>,
    k: int,
    w: Seq<(Seq<char>, u128)>,
    e: LedgerError,
)
    requires
        0 <= k < ts.len(),
        apply_transfers(accs, bals, ts.take(k)) == Ok::<_, LedgerError>(w),
        apply_transfer(accs, w, ts[k]) == Err::<Seq<(Seq<char>, u128)>, _>(e),
    ensures
        apply_transfers(accs, bals, ts) == Err::<Seq<(Seq<char>, u128)>, _>(e),
    decreases k,
{
    if k == 0 {
        assert(ts.take(0).len() == 0);
        assert(w == bals);
    } else {
        assert(ts.take(k)[0] == ts[0]);
        assert(ts.take(k).len() > 0);
        match apply_transfer(accs, bals, ts[0]) {
            Ok(b1) => {
                assert(ts.take(k).drop_first() =~= ts.drop_first().take(k - 1));
                assert(ts.drop_first()[k - 1] == ts[k]);
                lemma_apply_prefix_err(accs, b1, ts.drop_first(), k - 1, w, e);
            },
            Err(_) => {
                assert(false);
            },
        }
    }
}

/// If applying the first `k` transfers reaches `w`, applying the `k`-th
/// extends the reached prefix by one.
proof fn lemma_apply_prefix_step(
    accs: Seq<Seq<char>>,
    bals: Seq<(Seq<char>, u128)>,
    ts: Seq<Transfer>,
    k: int,
    w: Seq<(Seq<char>, u128)>,
)
    requires
        0 <= k < ts.len(),
        apply_transfers(accs, bals, ts.take(k)) == Ok::<_, LedgerError>(w),
        apply_transfer(accs, w, ts[k]) is Ok,
    ensures
        apply_transfers(accs, bals, ts.take(k + 1)) == apply_transfer(accs, w, ts[k]),
    decreases k,
{
    if k == 0 {
        assert(ts.take(0).len() == 0);
        assert(w == bals);
        assert(ts.take(1)[0] == ts[0]);
        assert(ts.take(1).len() == 1);
        match apply_transfer(accs, w, ts[0]) {
            Ok(b1) => {
                assert(apply_transfers(accs, bals, ts.take(1)) == apply_transfers(
                    accs,
                    b1,
                    ts.take(1).drop_first(),
                ));
                assert(ts.take(1).drop_first().len() == 0);
                assert(apply_transfers(accs, b1, ts.take(1).drop_first()) == Ok::<
                    _,
                    LedgerError,
                >(b1));
            },
            Err(_) => {
                assert(false);
            },
        }
    } else {
        assert(ts.take(k)[0] == ts[0]);
        assert(ts.take(k).len() > 0);
        match apply_transfer(accs, bals, ts[0]) {
            Ok(b1) => {
                assert(ts.take(k).drop_first() =~= ts.drop_first().take(k - 1));
                assert(ts.drop_first()[k - 1] == ts[k]);
                lemma_apply_prefix_step(accs, b1, ts.drop_first(), k - 1, w);
                assert(ts.take(k + 1)[0] == ts[0]);
                assert(ts.take(k + 1).drop_first() =~= ts.drop_first().take(k));
            },
            Err(_) => {
                assert(false);
            },
        }
    }
}

} // verus!
