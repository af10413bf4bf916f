//! A per-asset ledger for streams of exchange-reported transactions.
//!
//! Rows of an exchange export are parsed into [`transaction::Transaction`]
//! records and folded into a [`portfolio::Portfolio`]: a map from asset name
//! to its running balance and its timestamp-ordered transaction history.
//! Quantities are fixed-point integers ([`transaction::UNIT_SCALE`] units per
//! coin), so balances are exact.

use vstd::prelude::*;

pub mod portfolio;
pub mod transaction;

use crate::portfolio::add_to_portfolio;
use crate::portfolio::balanced;
use crate::portfolio::ledger_steps;
use crate::portfolio::lemma_ledger_steps_balanced;
use crate::portfolio::EntryModel;
use crate::portfolio::Portfolio;
use crate::transaction::create_transaction_from_line;
use crate::transaction::spec_parse_line;
use crate::transaction::TransactionError;
use crate::transaction::TxModel;

verus! {

/// Top-level error reserved for a failed account lookup inside the ledger.
/// The ledger's contracts prove that lookup cannot fail, so the processing
/// loop never returns it; the variant is kept for callers that match on it.
#[derive(Debug, Clone, Copy, PartialEq, Eq, Structural)]
pub enum LibError {
    HistoryAccessError,
}

/// The error of the first row, in order, that fails to parse; `None` when
/// every row parses.
pub open spec fn spec_first_error(rows: Seq<Seq<char>>, exchange: Seq<char>) -> Option<
    TransactionError,
>
    decreases rows.len(),
{
    if rows.len() == 0 {
        None
    } else {
        match spec_first_error(rows.drop_last(), exchange) {
            Some(e) => Some(e),
            None => match spec_parse_line(rows.last(), exchange) {
                Err(e) => Some(e),
                Ok(_) => None,
            },
        }
    }
}

/// The transactions of the rows that parse, in row order.
pub open spec fn spec_parsed(rows: Seq<Seq<char>>, exchange: Seq<char>) -> Seq<TxModel>
    decreases rows.len(),
{
    if rows.len() == 0 {
        Seq::empty()
    } else {
        let prefix = spec_parsed(rows.drop_last(), exchange);
        match spec_parse_line(rows.last(), exchange) {
            Ok(m) => prefix.push(m),
            Err(_) => prefix,
        }
    }
}

/// A parse failure at a row with no failure before it is the first failure
/// of the whole input.
proof fn lemma_first_error_found(rows: Seq<Seq<char>>, exchange: Seq<char>, i: int)
    requires
        0 <= i < rows.len(),
        spec_first_error(rows.take(i), exchange) is None,
        spec_parse_line(rows[i], exchange) is Err,
    ensures
        spec_first_error(rows, exchange) == Some(spec_parse_line(rows[i], exchange)->Err_0),
    decreases rows.len(),
{
    if i == rows.len() - 1 {
        assert(rows.take(i) =~= rows.drop_last());
    } else {
        assert(rows.drop_last().take(i) =~= rows.take(i));
        assert(rows.drop_last()[i] == rows[i]);
        lemma_first_error_found(rows.drop_last(), exchange, i);
    }
}

/// Folds a stream of export rows into a ledger. The rows are consumed in
/// order; the first row that fails to parse aborts the whole run with that
/// row's error, and no ledger is returned in that case. On success the
/// ledger is exactly one reached from the empty ledger by applying the
/// parsed transactions in row order.
pub fn process_lines(lines: &Vec<String>, exchange: &str) -> (r: Result<
    Portfolio,
    TransactionError,
>)
    ensures
        r is Ok <==> spec_first_error(lines.deep_view(), exchange@) is None,
        r matches Err(e) ==> spec_first_error(lines.deep_view(), exchange@) == Some(e),
        r matches Ok(p) ==> p.wf() && ledger_steps(
            Map::<Seq<char>, EntryModel>::empty(),
            spec_parsed(lines.deep_view(), exchange@),
            p.model(),
        ),
        r matches Ok(p) ==> balanced(p.model()),
{
    let ghost rows = lines.deep_view();
    let mut portfolio = Portfolio::new();
    proof {
        assert(portfolio.model() =~= Map::<Seq<char>, EntryModel>::empty());
        assert(rows.take(0) =~= Seq::<Seq<char>>::empty());
    }
    let mut i: usize = 0;
    while i < lines.len()
        invariant
            i <= lines.len(),
            rows == lines.deep_view(),
            rows.len() == lines@.len(),
            portfolio.wf(),
            spec_first_error(rows.take(i as int), exchange@) is None,
            ledger_steps(
                Map::<Seq<char>, EntryModel>::empty(),
                spec_parsed(rows.take(i as int), exchange@),
                portfolio.model(),
            ),
        decreases lines@.len() - i,
    {
        let transaction = match create_transaction_from_line(lines[i].as_str(), exchange) {
            Ok(t) => t,
            Err(e) => {
                proof {
                    lemma_first_error_found(rows, exchange@, i as int);
                }
                return Err(e);
            },
        };
        let ghost p_before = portfolio;
        // `add_to_portfolio` proves it returns `Ok` on well-formed input.
        portfolio = match add_to_portfolio(portfolio, transaction) {
            Ok(p) => p,
            Err(_) => vstd::pervasive::unreached(),
        };
        proof {
            let m = spec_parse_line(rows[i as int], exchange@)->Ok_0;
            assert(transaction.model() == m);
            lemma_ledger_steps_snoc_wrapper(rows, exchange@, i as int, p_before, portfolio);
            assert(rows.take(i as int + 1).drop_last() =~= rows.take(i as int));
        }
        i += 1;
    }
    proof {
        assert(rows.take(lines@.len() as int) =~= rows);
        assert(balanced(Map::<Seq<char>, EntryModel>::empty()));
        lemma_ledger_steps_balanced(
            Map::<Seq<char>, EntryModel>::empty(),
            spec_parsed(rows, exchange@),
            portfolio.model(),
        );
    }
    Ok(portfolio)
}

/// One loop step of `process_lines`: extends the run of ledger steps by the
/// transaction of row `i`.
proof fn lemma_ledger_steps_snoc_wrapper(
    rows: Seq<Seq<char>>,
    exchange: Seq<char>,
    i: int,
    p_before: Portfolio,
    p_after: Portfolio,
)
    requires
        0 <= i < rows.len(),
        spec_first_error(rows.take(i), exchange) is None,
        spec_parse_line(rows[i], exchange) is Ok,
        ledger_steps(
            Map::<Seq<char>, EntryModel>::empty(),
            spec_parsed(rows.take(i), exchange),
            p_before.model(),
        ),
        crate::portfolio::tx_step(
            p_before.model(),
            spec_parse_line(rows[i], exchange)->Ok_0,
            p_after.model(),
        ),
    ensures
        spec_first_error(rows.take(i + 1), exchange) is None,
        ledger_steps(
            Map::<Seq<char>, EntryModel>::empty(),
            spec_parsed(rows.take(i + 1), exchange),
            p_after.model(),
        ),
{
    assert(rows.take(i + 1).drop_last() =~= rows.take(i));
    assert(rows.take(i + 1).last() == rows[i]);
    crate::portfolio::lemma_ledger_steps_snoc(
        Map::<Seq<char>, EntryModel>::empty(),
        spec_parsed(rows.take(i), exchange),
        p_before.model(),
        spec_parse_line(rows[i], exchange)->Ok_0,
        p_after.model(),
    );
}

} // verus!
