//! The ledger: per-asset accounts with a running balance and a
//! timestamp-ordered history, created on demand as transactions arrive.

use vstd::prelude::*;

use crate::transaction::str_eq;
use crate::transaction::CoinConversion;
use crate::transaction::Transaction;
use crate::transaction::TransactionType;
use crate::transaction::TxModel;

verus! {

/// Errors of the ledger itself. `HistoryAccessError` is defensive only: it
/// signals that an account created a moment earlier could not be found, which
/// the contracts below prove impossible.
#[derive(Debug, PartialEq)]
pub enum PortfolioError {
    HistoryAccessError { attempted_access: String },
}

/// Signed effect of one transaction on the balance of the account named
/// `account_name`, in fixed-point units. For a Convert transaction the
/// destination account is credited with the destination-side amount; any
/// other account is debited the source amount. A self-conversion (source
/// named as its own destination) therefore counts as a pure credit.
pub open spec fn signed_effect(account_name: Seq<char>, t: TxModel) -> int {
    match t.action {
        TransactionType::Buy => t.quantity,
        TransactionType::Sell => -t.quantity,
        TransactionType::Income => t.quantity,
        TransactionType::Convert => match t.conversion_to {
            Some(c) => if c.name == account_name {
                c.quantity
            } else {
                -t.quantity
            },
            None => -t.quantity,
        },
    }
}

/// Sum of the signed effects of a sequence of transactions on the account
/// named `account_name`.
pub open spec fn sum_effects(account_name: Seq<char>, s: Seq<Transaction>) -> int
    decreases s.len(),
{
    if s.len() == 0 {
        0
    } else {
        sum_effects(account_name, s.drop_last()) + signed_effect(
            account_name,
            s.last().model(),
        )
    }
}

/// The history invariant: timestamps never decrease along the sequence.
pub open spec fn sorted_by_timestamp(s: Seq<Transaction>) -> bool {
    forall|i: int, j: int| 0 <= i <= j < s.len() ==> s[i].timestamp <= s[j].timestamp
}

/// The balance of an account does not depend on where in its history a
/// transaction was filed: inserting a record anywhere adds exactly its
/// signed effect to the sum. This is what lets the balance be updated in
/// arrival order while the history is kept in timestamp order.
pub proof fn lemma_sum_effects_insert(
    account_name: Seq<char>,
    s: Seq<Transaction>,
    i: int,
    t: Transaction,
)
    requires
        0 <= i <= s.len(),
    ensures
        sum_effects(account_name, s.insert(i, t)) == sum_effects(account_name, s)
            + signed_effect(account_name, t.model()),
    decreases s.len(),
{
    let s2 = s.insert(i, t);
    if i == s.len() {
        assert(s2.drop_last() =~= s);
        assert(s2.last() == t);
    } else {
        assert(s2.last() == s.last());
        assert(s2.drop_last() =~= s.drop_last().insert(i, t));
        lemma_sum_effects_insert(account_name, s.drop_last(), i, t);
    }
}

/// Every well-formed transaction moves a balance by less than `i64::MAX`
/// units, so a sum of effects is bounded by the history's length. This is
/// what keeps the `i128` balance free of overflow.
pub proof fn lemma_sum_effects_bound(account_name: Seq<char>, s: Seq<Transaction>)
    requires
        forall|i: int| 0 <= i < s.len() ==> (#[trigger] s[i]).wf(),
    ensures
        -(s.len() as int) * (i64::MAX as int) <= sum_effects(account_name, s) <= (s.len() as int)
            * (i64::MAX as int),
    decreases s.len(),
{
    if s.len() == 0 {
    } else {
        let prefix = s.drop_last();
        assert(forall|i: int| 0 <= i < prefix.len() ==> (#[trigger] prefix[i]).wf());
        lemma_sum_effects_bound(account_name, prefix);
        assert(s.last().wf());
        assert(-(i64::MAX as int) <= signed_effect(account_name, s.last().model())
            <= i64::MAX as int);
        assert((s.len() as int) * (i64::MAX as int) == (prefix.len() as int) * (i64::MAX as int)
            + i64::MAX as int) by (nonlinear_arith)
            requires s.len() == prefix.len() + 1;
    }
}

/// One asset's running state: its name, its balance in fixed-point units,
/// and its transaction history kept sorted by timestamp.
#[derive(Debug)]
pub struct AssetHistory {
    pub name: String,
    pub history: Vec<Transaction>,
    pub quantity: i128,
}

impl AssetHistory {
    /// The account invariant: the history is sorted by timestamp, every
    /// record in it is well formed, and the balance equals the sum of the
    /// records' signed effects on this account.
    pub open spec fn wf(self) -> bool {
        &&& sorted_by_timestamp(self.history@)
        &&& forall|i: int| 0 <= i < self.history@.len() ==> (#[trigger] self.history@[i]).wf()
        &&& self.quantity == sum_effects(self.name@, self.history@)
    }

    /// A fresh account: zero balance, empty history.
    pub fn new(name: String) -> (r: AssetHistory)
        ensures
            r.wf(),
            r.name == name,
            r.quantity == 0,
            r.history@ =~= Seq::<Transaction>::empty(),
    {
        AssetHistory { name, history: Vec::new(), quantity: 0 }
    }

    /// Files a record into the history at a position that keeps the history
    /// sorted by timestamp. Among records with equal timestamps the position
    /// is left unspecified: arrival order is not guaranteed to be preserved
    /// for ties.
    pub fn push_into_history(&mut self, new_transaction: Transaction)
        requires
            sorted_by_timestamp(old(self).history@),
        ensures
            final(self).name == old(self).name,
            final(self).quantity == old(self).quantity,
            sorted_by_timestamp(final(self).history@),
            exists|i: int|
                0 <= i <= old(self).history@.len() && final(self).history@ == old(
                    self,
                ).history@.insert(i, new_transaction),
    {
        let pos = find_insert_position(&self.history, new_transaction.timestamp);
        self.history.insert(pos, new_transaction);
    }

    /// Applies one transaction to this account: the balance moves by the
    /// record's signed effect on this account's name, and the record is
    /// filed into the history in timestamp order.
    pub fn add_transaction_to_asset(&mut self, new_transaction: Transaction)
        requires
            old(self).wf(),
            new_transaction.wf(),
        ensures
            final(self).wf(),
            final(self).name == old(self).name,
            final(self).quantity == old(self).quantity + signed_effect(
                old(self).name@,
                new_transaction.model(),
            ),
            exists|i: int|
                0 <= i <= old(self).history@.len() && final(self).history@ == old(
                    self,
                ).history@.insert(i, new_transaction),
    {
        let len = self.history.len();
        proof {
            lemma_sum_effects_bound(self.name@, self.history@);
            assert((len as int) * (i64::MAX as int) <= (u64::MAX as int) * (i64::MAX as int))
                by (nonlinear_arith)
                requires 0 <= len as int <= u64::MAX as int;
        }
        match &new_transaction.action {
            TransactionType::Buy => {
                self.quantity = self.quantity + new_transaction.quantity as i128;
            },
            TransactionType::Sell => {
                self.quantity = self.quantity - new_transaction.quantity as i128;
            },
            TransactionType::Income => {
                self.quantity = self.quantity + new_transaction.quantity as i128;
            },
            TransactionType::Convert => {
                let conversion = match &new_transaction.conversion_to {
                    Some(c) => c.clone(),
                    None => {
                        proof {
                            assert(false);
                        }
                        CoinConversion { name: String::new(), quantity: 0 }
                    },
                };
                if self.name == conversion.name {
                    self.quantity = self.quantity + conversion.quantity as i128;
                } else {
                    self.quantity = self.quantity - new_transaction.quantity as i128;
                }
            },
        }
        self.push_into_history(new_transaction);
        proof {
            let i = choose|i: int|
                0 <= i <= old(self).history@.len() && self.history@ == old(
                    self,
                ).history@.insert(i, new_transaction);
            lemma_sum_effects_insert(self.name@, old(self).history@, i, new_transaction);
        }
    }
}

/// The ledger: one account per asset name ever referenced, created lazily
/// and never removed. Account names are unique; the order of the underlying
/// vector is immaterial, and the spec functions below present the ledger as
/// a map from name to account.
#[derive(Debug)]
pub struct Portfolio {
    pub accounts: Vec<AssetHistory>,
}

impl Portfolio {
    pub open spec fn names_unique(self) -> bool {
        forall|i: int, j: int|
            0 <= i < j < self.accounts@.len() ==> self.accounts@[i].name@
                != self.accounts@[j].name@
    }

    /// The ledger invariant: unique account names, every account well formed.
    pub open spec fn wf(self) -> bool {
        &&& self.names_unique()
        &&& forall|i: int|
            0 <= i < self.accounts@.len() ==> (#[trigger] self.accounts@[i]).wf()
    }

    pub open spec fn spec_contains(self, name: Seq<char>) -> bool {
        exists|i: int|
            0 <= i < self.accounts@.len() && self.accounts@[i].name@ == name
    }

    pub open spec fn spec_index_of(self, name: Seq<char>) -> int {
        choose|i: int|
            0 <= i < self.accounts@.len() && self.accounts@[i].name@ == name
    }

    /// The balance of the account of this name; an asset never referenced
    /// holds zero.
    pub open spec fn balance_of(self, name: Seq<char>) -> int {
        if self.spec_contains(name) {
            self.accounts@[self.spec_index_of(name)].quantity as int
        } else {
            0
        }
    }

    /// The history of the account of this name; an asset never referenced
    /// has an empty one.
    pub open spec fn history_of(self, name: Seq<char>) -> Seq<Transaction> {
        if self.spec_contains(name) {
            self.accounts@[self.spec_index_of(name)].history@
        } else {
            Seq::empty()
        }
    }

    /// An empty ledger.
    pub fn new() -> (r: Portfolio)
        ensures
            r.wf(),
            r.accounts@.len() == 0,
            forall|n: Seq<char>| !(#[trigger] r.spec_contains(n)),
    {
        Portfolio { accounts: Vec::new() }
    }

    /// Looks an account up by name.
    fn find_account(&self, name: &str) -> (r: Option<usize>)
        ensures
            match r {
                Some(i) => i < self.accounts@.len() && self.accounts@[i as int].name@ == name@,
                None => !self.spec_contains(name@),
            },
    {
        let mut i: usize = 0;
        while i < self.accounts.len()
            invariant
                i <= self.accounts@.len(),
                forall|j: int| 0 <= j < i ==> self.accounts@[j].name@ != name@,
            decreases self.accounts@.len() - i,
        {
            if str_eq(self.accounts[i].name.as_str(), name) {
                return Some(i);
            }
            i += 1;
        }
        None
    }

    /// Whether the ledger holds an account of this name.
    pub fn contains_asset(&self, name: &str) -> (r: bool)
        ensures
            r == self.spec_contains(name@),
    {
        match self.find_account(name) {
            Some(_) => true,
            None => false,
        }
    }
}

/// The account at a valid index is the one its name looks up.
proof fn lemma_account_at(p: Portfolio, i: int)
    requires
        p.names_unique(),
        0 <= i < p.accounts@.len(),
    ensures
        p.spec_contains(p.accounts@[i].name@),
        p.spec_index_of(p.accounts@[i].name@) == i,
        p.balance_of(p.accounts@[i].name@) == p.accounts@[i].quantity as int,
        p.history_of(p.accounts@[i].name@) == p.accounts@[i].history@,
{
    let name = p.accounts@[i].name@;
    assert(p.spec_contains(name));
    let j = p.spec_index_of(name);
    assert(0 <= j < p.accounts@.len() && p.accounts@[j].name@ == name);
    if i != j {
        assert(p.accounts@[i].name@ != p.accounts@[j].name@);
        assert(false);
    }
}

/// Returns the ledger with an account for `asset` present: the existing
/// ledger when one already is, otherwise the ledger with exactly one fresh
/// zero-balance, empty-history account appended. No balance and no history
/// changes either way, and calling this twice for the same name is the same
/// as calling it once.
pub fn add_new_asset_to_portfolio(portfolio: Portfolio, asset: &str) -> (r: Portfolio)
    requires
        portfolio.wf(),
    ensures
        r.wf(),
        r.spec_contains(asset@),
        portfolio.spec_contains(asset@) ==> r == portfolio,
        !portfolio.spec_contains(asset@) ==> r.accounts@.len() == portfolio.accounts@.len() + 1,
        forall|k: Seq<char>|
            #![auto]
            r.spec_contains(k) <==> (portfolio.spec_contains(k) || k == asset@),
        forall|k: Seq<char>| #![auto] r.balance_of(k) == portfolio.balance_of(k),
        forall|k: Seq<char>| #![auto] r.history_of(k) == portfolio.history_of(k),
{
    let mut portfolio = portfolio;
    let ghost p0 = portfolio;
    match portfolio.find_account(asset) {
        Some(_) => portfolio,
        None => {
            let asset_history = AssetHistory::new(asset.to_owned());
            portfolio.accounts.push(asset_history);
            proof {
                let n = p0.accounts@.len() as int;
                assert(portfolio.accounts@[n].name@ == asset@);
                assert(forall|m: int| 0 <= m < n ==> portfolio.accounts@[m] == p0.accounts@[m]);
                assert(portfolio.wf());
                assert forall|k: Seq<char>| #![auto]
                    portfolio.spec_contains(k) <==> (p0.spec_contains(k) || k == asset@) by {
                    if p0.spec_contains(k) {
                        let i = p0.spec_index_of(k);
                        assert(portfolio.accounts@[i].name@ == k);
                    }
                    if k == asset@ {
                        assert(portfolio.accounts@[n].name@ == k);
                    }
                    if portfolio.spec_contains(k) {
                        let i = portfolio.spec_index_of(k);
                        if i < n {
                            assert(p0.accounts@[i].name@ == k);
                        }
                    }
                }
                assert forall|k: Seq<char>| #![auto]
                    portfolio.balance_of(k) == p0.balance_of(k) && portfolio.history_of(k)
                        == p0.history_of(k) by {
                    if p0.spec_contains(k) {
                        let i = p0.spec_index_of(k);
                        lemma_account_at(p0, i);
                        lemma_account_at(portfolio, i);
                    } else if k == asset@ {
                        lemma_account_at(portfolio, n);
                        assert(portfolio.history_of(k) =~= Seq::<Transaction>::empty());
                    }
                }
            }
            portfolio
        },
    }
}

/// Applies one transaction to the already-present account of this name:
/// its balance moves by the record's signed effect, the record is filed in
/// its history, every other account is untouched. The error leg is the
/// defensive lookup failure of the ledger; the contract proves it cannot
/// happen.
fn apply_to_account(portfolio: Portfolio, name: &str, transaction: Transaction) -> (r: Result<
    Portfolio,
    PortfolioError,
>)
    requires
        portfolio.wf(),
        transaction.wf(),
        portfolio.spec_contains(name@),
    ensures
        r is Ok,
        ({
            let p = r->Ok_0;
            &&& p.wf()
            &&& forall|k: Seq<char>| #![auto] p.spec_contains(k) <==> portfolio.spec_contains(k)
            &&& p.balance_of(name@) == portfolio.balance_of(name@) + signed_effect(
                name@,
                transaction.model(),
            )
            &&& exists|i: int|
                0 <= i <= portfolio.history_of(name@).len() && p.history_of(name@)
                    == portfolio.history_of(name@).insert(i, transaction)
            &&& forall|k: Seq<char>|
                #![auto]
                k != name@ ==> p.balance_of(k) == portfolio.balance_of(k) && p.history_of(k)
                    == portfolio.history_of(k)
        }),
{
    let mut portfolio = portfolio;
    let ghost p0 = portfolio;
    let idx = match portfolio.find_account(name) {
        Some(i) => i,
        None => {
            return Err(
                PortfolioError::HistoryAccessError { attempted_access: name.to_owned() },
            );
        },
    };
    proof {
        lemma_account_at(p0, idx as int);
    }
    let mut account = portfolio.accounts.swap_remove(idx);
    account.add_transaction_to_asset(transaction);
    portfolio.accounts.push(account);
    proof {
        let n = p0.accounts@.len() as int;
        let s0 = p0.accounts@;
        let s2 = portfolio.accounts@;
        let i = idx as int;
        assert(s2.len() == n);
        assert(forall|m: int| 0 <= m < n - 1 && m != i ==> s2[m] == s0[m]);
        assert(i < n - 1 ==> s2[i] == s0[n - 1]);
        assert(s2[n - 1].name@ == name@);
        assert(s2[n - 1].wf());
        assert forall|a: int, b: int| 0 <= a < b < n implies s2[a].name@ != s2[b].name@ by {
            let oa = if a == i { n - 1 } else { a };
            let ob = if b == n - 1 { i } else if b == i { n - 1 } else { b };
            assert(s2[a].name@ == s0[oa].name@);
            assert(s2[b].name@ == s0[ob].name@);
            assert(oa != ob);
        }
        assert(portfolio.wf());
        lemma_account_at(portfolio, n - 1);
        assert forall|k: Seq<char>| #![auto]
            portfolio.spec_contains(k) <==> p0.spec_contains(k) by {
            if p0.spec_contains(k) {
                let m = p0.spec_index_of(k);
                if m == i {
                    assert(s2[n - 1].name@ == k);
                } else if m == n - 1 {
                    assert(s2[i].name@ == k);
                } else {
                    assert(s2[m].name@ == k);
                }
            }
            if portfolio.spec_contains(k) {
                let m = portfolio.spec_index_of(k);
                if m == n - 1 {
                    assert(s0[i].name@ == k);
                } else if m == i && i < n - 1 {
                    assert(s0[n - 1].name@ == k);
                } else {
                    assert(s0[m].name@ == k);
                }
            }
        }
        assert forall|k: Seq<char>| #![auto]
            k != name@ ==> portfolio.balance_of(k) == p0.balance_of(k) && portfolio.history_of(k)
                == p0.history_of(k) by {
            if k != name@ && p0.spec_contains(k) {
                let m = p0.spec_index_of(k);
                lemma_account_at(p0, m);
                assert(m != i);
                if m == n - 1 {
                    assert(s2[i] == s0[m]);
                    lemma_account_at(portfolio, i);
                } else {
                    assert(s2[m] == s0[m]);
                    lemma_account_at(portfolio, m);
                }
            }
        }
    }
    Ok(portfolio)
}

/// Whether a transaction is a conversion between two distinct assets.
pub open spec fn convert_distinct(t: TxModel) -> bool {
    &&& t.action is Convert
    &&& match t.conversion_to {
        Some(c) => c.name != t.asset,
        None => false,
    }
}

/// The destination asset of a conversion (the source asset itself when the
/// record carries no conversion side).
pub open spec fn convert_dest(t: TxModel) -> Seq<char> {
    match t.conversion_to {
        Some(c) => c.name,
        None => t.asset,
    }
}

/// Applies one transaction to the ledger. An account is created on demand
/// for the primary asset, and, for a conversion between distinct assets, for
/// the destination asset too; the destination is credited the
/// destination-side amount, the source debited the source amount, and the
/// record is filed in both histories. A self-conversion updates its single
/// account once, crediting the destination-side amount only. Every other
/// account is untouched. On well-formed input the result is always `Ok`: the
/// `HistoryAccessError` leg exists for lookup failures that the contracts
/// prove impossible.
pub fn add_to_portfolio(portfolio: Portfolio, transaction: Transaction) -> (r: Result<
    Portfolio,
    PortfolioError,
>)
    requires
        portfolio.wf(),
        transaction.wf(),
    ensures
        r is Ok,
        (r->Ok_0).wf(),
        forall|k: Seq<char>|
            #![auto]
            (r->Ok_0).spec_contains(k) <==> (portfolio.spec_contains(k) || k
                == transaction.model().asset || (convert_distinct(transaction.model()) && k
                == convert_dest(transaction.model()))),
        (r->Ok_0).balance_of(transaction.model().asset) == portfolio.balance_of(
            transaction.model().asset,
        ) + signed_effect(transaction.model().asset, transaction.model()),
        exists|i: int|
            0 <= i <= portfolio.history_of(transaction.model().asset).len() && (
            r->Ok_0).history_of(transaction.model().asset) == portfolio.history_of(
                transaction.model().asset,
            ).insert(i, transaction),
        convert_distinct(transaction.model()) ==> (r->Ok_0).balance_of(
            convert_dest(transaction.model()),
        ) == portfolio.balance_of(convert_dest(transaction.model())) + signed_effect(
            convert_dest(transaction.model()),
            transaction.model(),
        ),
        convert_distinct(transaction.model()) ==> exists|i: int|
            0 <= i <= portfolio.history_of(convert_dest(transaction.model())).len() && (
            r->Ok_0).history_of(convert_dest(transaction.model())) == portfolio.history_of(
                convert_dest(transaction.model()),
            ).insert(i, transaction),
        forall|k: Seq<char>|
            #![auto]
            k != transaction.model().asset && k != convert_dest(transaction.model()) ==> (
            r->Ok_0).balance_of(k) == portfolio.balance_of(k) && (r->Ok_0).history_of(k)
                == portfolio.history_of(k),
        tx_step(portfolio.model(), transaction.model(), (r->Ok_0).model()),
{
    let ghost p_in = portfolio;
    let ghost t = transaction.model();
    let asset_name = transaction.asset.clone();
    let mut portfolio = add_new_asset_to_portfolio(portfolio, asset_name.as_str());
    if transaction.action == TransactionType::Convert {
        let conversion = match &transaction.conversion_to {
            Some(c) => c.clone(),
            None => {
                proof {
                    assert(false);
                }
                CoinConversion { name: String::new(), quantity: 0 }
            },
        };
        if !str_eq(conversion.name.as_str(), asset_name.as_str()) {
            portfolio = add_new_asset_to_portfolio(portfolio, conversion.name.as_str());
            let ghost p2 = portfolio;
            portfolio = match apply_to_account(
                portfolio,
                conversion.name.as_str(),
                transaction.clone(),
            ) {
                Ok(p) => p,
                Err(e) => {
                    return Err(e);
                },
            };
            proof {
                let dest = convert_dest(t);
                let i_d = choose|i: int|
                    0 <= i <= p2.history_of(dest).len() && portfolio.history_of(dest)
                        == p2.history_of(dest).insert(i, transaction);
                assert(p2.history_of(dest) == p_in.history_of(dest));
                assert(portfolio.history_of(dest) == p_in.history_of(dest).insert(
                    i_d,
                    transaction,
                ));
            }
        }
    }
    let ghost p3 = portfolio;
    let result = apply_to_account(portfolio, asset_name.as_str(), transaction);
    proof {
        let p = result->Ok_0;
        let i_s = choose|i: int|
            0 <= i <= p3.history_of(t.asset).len() && p.history_of(t.asset) == p3.history_of(
                t.asset,
            ).insert(i, transaction);
        assert(p3.history_of(t.asset) == p_in.history_of(t.asset));
        assert(p.history_of(t.asset) == p_in.history_of(t.asset).insert(i_s, transaction));
        if convert_distinct(t) {
            let dest = convert_dest(t);
            assert(dest != t.asset);
            assert(p.history_of(dest) == p3.history_of(dest));
            let i_d = choose|i: int|
                0 <= i <= p_in.history_of(dest).len() && p3.history_of(dest) == p_in.history_of(
                    dest,
                ).insert(i, transaction);
            assert(p.history_of(dest) == p_in.history_of(dest).insert(i_d, transaction));
        }
        let m0 = p_in.model();
        let m1 = p.model();
        if convert_distinct(t) {
            assert(m1.dom() =~= m0.dom().insert(t.asset).insert(convert_dest(t)));
        } else {
            assert(m1.dom() =~= m0.dom().insert(t.asset));
        }
        assert(Seq::<Transaction>::empty().map_values(|x: Transaction| x.model())
            =~= Seq::<TxModel>::empty());
        let i_s2 = choose|i: int|
            0 <= i <= p_in.history_of(t.asset).len() && p.history_of(t.asset)
                == p_in.history_of(t.asset).insert(i, transaction);
        lemma_map_values_insert(p_in.history_of(t.asset), i_s2, transaction);
        assert(m1[t.asset].history == entry_or_zero(m0, t.asset).history.insert(i_s2, t));
        assert(entry_step(entry_or_zero(m0, t.asset), t.asset, t, m1[t.asset]));
        if convert_distinct(t) {
            let dest = convert_dest(t);
            let i_d2 = choose|i: int|
                0 <= i <= p_in.history_of(dest).len() && p.history_of(dest) == p_in.history_of(
                    dest,
                ).insert(i, transaction);
            lemma_map_values_insert(p_in.history_of(dest), i_d2, transaction);
            assert(m1[dest].history == entry_or_zero(m0, dest).history.insert(i_d2, t));
            assert(entry_step(entry_or_zero(m0, dest), dest, t, m1[dest]));
            assert forall|k: Seq<char>|
                #![auto]
                m0.dom().contains(k) && k != t.asset && k != dest implies m1[k] == m0[k] by {
                assert(p.balance_of(k) == p_in.balance_of(k));
                assert(p.history_of(k) == p_in.history_of(k));
            }
        } else {
            assert forall|k: Seq<char>|
                #![auto]
                m0.dom().contains(k) && k != t.asset implies m1[k] == m0[k] by {
                assert(k != convert_dest(t));
                assert(p.balance_of(k) == p_in.balance_of(k));
                assert(p.history_of(k) == p_in.history_of(k));
            }
        }
        assert(tx_step(m0, t, m1));
    }
    result
}

/// Mathematical content of one account: its balance and its history.
pub ghost struct EntryModel {
    pub quantity: int,
    pub history: Seq<TxModel>,
}

impl Portfolio {
    /// The ledger as a map from asset name to account content.
    pub open spec fn model(self) -> Map<Seq<char>, EntryModel> {
        Map::new(
            |k: Seq<char>| self.spec_contains(k),
            |k: Seq<char>|
                EntryModel {
                    quantity: self.balance_of(k),
                    history: self.history_of(k).map_values(|t: Transaction| t.model()),
                },
        )
    }
}

/// The entry of a name in a ledger model; a zero entry when absent.
pub open spec fn entry_or_zero(m: Map<Seq<char>, EntryModel>, k: Seq<char>) -> EntryModel {
    if m.dom().contains(k) {
        m[k]
    } else {
        EntryModel { quantity: 0, history: Seq::empty() }
    }
}

/// How one account's content moves when a transaction is applied to it: the
/// balance moves by the signed effect, the record is filed somewhere in the
/// history.
pub open spec fn entry_step(e0: EntryModel, name: Seq<char>, t: TxModel, e1: EntryModel) -> bool {
    &&& e1.quantity == e0.quantity + signed_effect(name, t)
    &&& exists|i: int| 0 <= i <= e0.history.len() && e1.history == e0.history.insert(i, t)
}

/// How the whole ledger moves when one transaction is applied: the touched
/// accounts (source, and destination for a conversion between distinct
/// assets) appear if absent and step as `entry_step`; every other entry is
/// unchanged.
pub open spec fn tx_step(
    m0: Map<Seq<char>, EntryModel>,
    t: TxModel,
    m1: Map<Seq<char>, EntryModel>,
) -> bool {
    if convert_distinct(t) {
        &&& m1.dom() == m0.dom().insert(t.asset).insert(convert_dest(t))
        &&& entry_step(entry_or_zero(m0, t.asset), t.asset, t, m1[t.asset])
        &&& entry_step(entry_or_zero(m0, convert_dest(t)), convert_dest(t), t, m1[convert_dest(t)])
        &&& forall|k: Seq<char>|
            #![auto]
            m0.dom().contains(k) && k != t.asset && k != convert_dest(t) ==> m1[k] == m0[k]
    } else {
        &&& m1.dom() == m0.dom().insert(t.asset)
        &&& entry_step(entry_or_zero(m0, t.asset), t.asset, t, m1[t.asset])
        &&& forall|k: Seq<char>|
            #![auto]
            m0.dom().contains(k) && k != t.asset ==> m1[k] == m0[k]
    }
}

/// A ledger reached from `m0` by applying a sequence of transactions, first
/// to last.
pub open spec fn ledger_steps(
    m0: Map<Seq<char>, EntryModel>,
    ts: Seq<TxModel>,
    m1: Map<Seq<char>, EntryModel>,
) -> bool
    decreases ts.len(),
{
    if ts.len() == 0 {
        m1 == m0
    } else {
        exists|mid: Map<Seq<char>, EntryModel>|
            tx_step(m0, ts.first(), mid) && ledger_steps(mid, ts.drop_first(), m1)
    }
}

/// A run of steps followed by one more step is a run of steps.
pub proof fn lemma_ledger_steps_snoc(
    m0: Map<Seq<char>, EntryModel>,
    ts: Seq<TxModel>,
    m1: Map<Seq<char>, EntryModel>,
    t: TxModel,
    m2: Map<Seq<char>, EntryModel>,
)
    requires
        ledger_steps(m0, ts, m1),
        tx_step(m1, t, m2),
    ensures
        ledger_steps(m0, ts.push(t), m2),
    decreases ts.len(),
{
    if ts.len() == 0 {
        assert(ts.push(t).first() == t);
        assert(ts.push(t).drop_first() =~= Seq::<TxModel>::empty());
        assert(ledger_steps(m2, ts.push(t).drop_first(), m2));
        assert(tx_step(m0, ts.push(t).first(), m2));
    } else {
        let mid = choose|mid: Map<Seq<char>, EntryModel>|
            tx_step(m0, ts.first(), mid) && ledger_steps(mid, ts.drop_first(), m1);
        lemma_ledger_steps_snoc(mid, ts.drop_first(), m1, t, m2);
        assert(ts.push(t).first() == ts.first());
        assert(ts.push(t).drop_first() =~= ts.drop_first().push(t));
        assert(tx_step(m0, ts.push(t).first(), mid) && ledger_steps(
            mid,
            ts.push(t).drop_first(),
            m2,
        ));
    }
}

/// Balance correctness, stated of one account: a well-formed account's
/// balance is exactly the sum of the signed effects of the records in its
/// history; by `lemma_sum_effects_insert` that sum does not depend on where
/// each record was filed, so it equals the sum in arrival order too.
pub proof fn lemma_balance_is_sum(a: AssetHistory)
    requires
        a.wf(),
    ensures
        a.quantity == sum_effects(a.name@, a.history@),
{
}

/// History ordering: a well-formed account's history is sorted ascending by
/// timestamp, however its records arrived.
pub proof fn lemma_history_sorted(a: AssetHistory)
    requires
        a.wf(),
    ensures
        sorted_by_timestamp(a.history@),
{
}

/// Sum of the signed effects of a sequence of transaction models.
pub open spec fn sum_effects_models(account_name: Seq<char>, s: Seq<TxModel>) -> int
    decreases s.len(),
{
    if s.len() == 0 {
        0
    } else {
        sum_effects_models(account_name, s.drop_last()) + signed_effect(account_name, s.last())
    }
}

proof fn lemma_sum_effects_models_insert(
    account_name: Seq<char>,
    s: Seq<TxModel>,
    i: int,
    t: TxModel,
)
    requires
        0 <= i <= s.len(),
    ensures
        sum_effects_models(account_name, s.insert(i, t)) == sum_effects_models(account_name, s)
            + signed_effect(account_name, t),
    decreases s.len(),
{
    let s2 = s.insert(i, t);
    if i == s.len() {
        assert(s2.drop_last() =~= s);
        assert(s2.last() == t);
    } else {
        assert(s2.last() == s.last());
        assert(s2.drop_last() =~= s.drop_last().insert(i, t));
        lemma_sum_effects_models_insert(account_name, s.drop_last(), i, t);
    }
}

/// Every entry of a ledger model balances: its quantity is the sum of its
/// history's signed effects.
pub open spec fn balanced(m: Map<Seq<char>, EntryModel>) -> bool {
    forall|k: Seq<char>|
        #![auto]
        m.dom().contains(k) ==> m[k].quantity == sum_effects_models(k, m[k].history)
}

proof fn lemma_tx_step_balanced(
    m0: Map<Seq<char>, EntryModel>,
    t: TxModel,
    m1: Map<Seq<char>, EntryModel>,
)
    requires
        tx_step(m0, t, m1),
        balanced(m0),
    ensures
        balanced(m1),
{
    assert forall|k: Seq<char>|
        #![auto]
        m1.dom().contains(k) implies m1[k].quantity == sum_effects_models(k, m1[k].history) by {
        if k == t.asset || (convert_distinct(t) && k == convert_dest(t)) {
            let e0 = entry_or_zero(m0, k);
            assert(e0.quantity == sum_effects_models(k, e0.history));
            let i = choose|i: int|
                0 <= i <= e0.history.len() && m1[k].history == e0.history.insert(i, t);
            lemma_sum_effects_models_insert(k, e0.history, i, t);
        } else {
            assert(m0.dom().contains(k));
            assert(m1[k] == m0[k]);
        }
    }
}

/// Balance correctness, stated of whole runs: if every account of the
/// starting ledger balances, then after applying any sequence of
/// transactions, in any arrival order, every account still balances.
pub proof fn lemma_ledger_steps_balanced(
    m0: Map<Seq<char>, EntryModel>,
    ts: Seq<TxModel>,
    m1: Map<Seq<char>, EntryModel>,
)
    requires
        ledger_steps(m0, ts, m1),
        balanced(m0),
    ensures
        balanced(m1),
    decreases ts.len(),
{
    if ts.len() == 0 {
    } else {
        let mid = choose|mid: Map<Seq<char>, EntryModel>|
            tx_step(m0, ts.first(), mid) && ledger_steps(mid, ts.drop_first(), m1);
        lemma_tx_step_balanced(m0, ts.first(), mid);
        lemma_ledger_steps_balanced(mid, ts.drop_first(), m1);
    }
}

/// Mapping a history to its models commutes with filing one record into it.
proof fn lemma_map_values_insert(s: Seq<Transaction>, i: int, t: Transaction)
    requires
        0 <= i <= s.len(),
    ensures
        s.insert(i, t).map_values(|x: Transaction| x.model()) == s.map_values(
            |x: Transaction| x.model(),
        ).insert(i, t.model()),
{
    assert(s.insert(i, t).map_values(|x: Transaction| x.model()) =~= s.map_values(
        |x: Transaction| x.model(),
    ).insert(i, t.model()));
}

/// Binary search for a position where a record with the given timestamp can
/// be inserted without breaking the sort: everything before the position has
/// a timestamp no greater, everything at or after it no smaller.
fn find_insert_position(history: &Vec<Transaction>, timestamp: i64) -> (pos: usize)
    requires
        sorted_by_timestamp(history@),
    ensures
        pos <= history@.len(),
        forall|i: int| 0 <= i < pos ==> history@[i].timestamp <= timestamp,
        forall|i: int| pos <= i < history@.len() ==> history@[i].timestamp >= timestamp,
{
    let mut lo: usize = 0;
    let mut hi: usize = history.len();
    while lo < hi
        invariant
            lo <= hi <= history@.len(),
            sorted_by_timestamp(history@),
            forall|i: int| 0 <= i < lo ==> history@[i].timestamp <= timestamp,
            forall|i: int| hi <= i < history@.len() ==> history@[i].timestamp >= timestamp,
        decreases hi - lo,
    {
        let mid = lo + (hi - lo) / 2;
        if history[mid].timestamp < timestamp {
            lo = mid + 1;
        } else if history[mid].timestamp > timestamp {
            hi = mid;
        } else {
            proof {
                assert(forall|i: int| 0 <= i < mid ==> history@[i].timestamp <= timestamp);
                assert(forall|i: int|
                    mid <= i < history@.len() ==> history@[i].timestamp >= timestamp);
            }
            return mid;
        }
    }
    lo
}

} // verus!

