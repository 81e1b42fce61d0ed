//! A service that answers aggregate queries by combining the answers of an
//! underlying query service, and the rules by which it combines them.
use vstd::prelude::*;

verus! {

/// Combines the answers of the query service `S`.
pub struct AggregateService<S> {
    rpc_service: S,
}

impl<S> AggregateService<S> {
    pub closed spec fn spec_rpc_service(&self) -> S {
        self.rpc_service
    }

    /// A service over `rpc_service`.
    pub fn new(rpc_service: S) -> (r: Self)
        ensures
            r.spec_rpc_service() == rpc_service,
    {
        AggregateService { rpc_service }
    }

    /// The underlying query service.
    pub fn rpc_service(&self) -> (r: &S)
        ensures
            *r == self.spec_rpc_service(),
    {
        &self.rpc_service
    }
}

/// What a transaction lookup gives at one position: the transaction, with
/// its execution info when that was found; nothing when the transaction was
/// not found.
pub open spec fn paired_at<T, I>(tx: Option<T>, info: Option<I>) -> Option<(T, Option<I>)> {
    match tx {
        Some(t) => Some((t, info)),
        None => None,
    }
}

/// Pairs the transactions found for a list of hashes with the execution
/// infos found for the same hashes, position by position, over the shorter
/// of the two lists.
pub fn pair_transactions_with_info<T, I>(transactions: Vec<Option<T>>, execution_infos: Vec<Option<I>>) -> (r: Vec<
    Option<(T, Option<I>)>,
>)
    ensures
        r@.len() == if transactions@.len() <= execution_infos@.len() {
            transactions@.len()
        } else {
            execution_infos@.len()
        },
        forall|i: int| 0 <= i < r@.len() ==> #[trigger] r@[i] == paired_at(transactions@[i], execution_infos@[i]),
{
    let ghost ts = transactions@;
    let ghost is = execution_infos@;
    let mut trest = transactions;
    let mut irest = execution_infos;
    let mut out: Vec<Option<(T, Option<I>)>> = Vec::new();
    let ghost mut k: int = 0;
    assert(ts.skip(0) =~= ts && is.skip(0) =~= is);
    while trest.len() > 0 && irest.len() > 0
        invariant
            0 <= k <= ts.len(),
            k <= is.len(),
            trest@ == ts.skip(k),
            irest@ == is.skip(k),
            out@.len() == k,
            forall|i: int| 0 <= i < k ==> #[trigger] out@[i] == paired_at(ts[i], is[i]),
        decreases trest@.len(),
    {
        let tx = trest.remove(0);
        let info = irest.remove(0);
        assert(tx == ts[k] && info == is[k]);
        let item = match tx {
            Some(t) => Some((t, info)),
            None => None,
        };
        out.push(item);
        proof {
            assert(trest@ =~= ts.skip(k + 1));
            assert(irest@ =~= is.skip(k + 1));
            k = k + 1;
        }
    }
    out
}

/// A value that a complete transaction list needs was not found.
#[derive(Clone, Copy, Debug, PartialEq, Eq, Structural)]
pub enum MissingValue {
    /// The ledger transaction at this position was not found.
    LedgerTransaction(usize),
    /// The execution info at this position was not found.
    ExecutionInfo(usize),
}

/// The number of positions that `n` entries, `a` transactions and `b` infos
/// have in common.
pub open spec fn common_len(n: int, a: int, b: int) -> int {
    if n <= a && n <= b {
        n
    } else if a <= b {
        a
    } else {
        b
    }
}

/// The first position, among the first `n`, at which the transaction or its
/// info is missing.
pub open spec fn first_gap<T, I>(txs: Seq<Option<T>>, infos: Seq<Option<I>>, n: int, i: int) -> bool {
    &&& 0 <= i < n
    &&& (txs[i] is None || infos[i] is None)
    &&& forall|j: int| 0 <= j < i ==> (#[trigger] txs[j]) is Some && infos[j] is Some
}

/// Completes the transactions of `n` indexed entries with their ledger
/// transactions and execution infos, position by position, over the
/// positions the three have in common; fails at the first position where
/// either was not found, naming the ledger transaction when both are missing.
pub fn complete_transactions<T, I>(n: usize, ledger_txs: Vec<Option<T>>, execution_infos: Vec<Option<I>>) -> (r: Result<
    Vec<(T, I)>,
    MissingValue,
>)
    ensures
        r is Ok <==> forall|j: int|
            0 <= j < common_len(n as int, ledger_txs@.len() as int, execution_infos@.len() as int) ==> (
            #[trigger] ledger_txs@[j]) is Some && execution_infos@[j] is Some,
        r matches Ok(v) ==> v@.len() == common_len(n as int, ledger_txs@.len() as int, execution_infos@.len() as int)
            && forall|j: int| 0 <= j < v@.len() ==> #[trigger] v@[j] == (ledger_txs@[j]->Some_0, execution_infos@[j]->Some_0),
        r matches Err(e) ==> exists|i: int|
            first_gap(
                ledger_txs@,
                execution_infos@,
                common_len(n as int, ledger_txs@.len() as int, execution_infos@.len() as int),
                i,
            ) && e == if ledger_txs@[i] is None {
                MissingValue::LedgerTransaction(i as usize)
            } else {
                MissingValue::ExecutionInfo(i as usize)
            },
{
    let count = if n <= ledger_txs.len() && n <= execution_infos.len() {
        n
    } else if ledger_txs.len() <= execution_infos.len() {
        ledger_txs.len()
    } else {
        execution_infos.len()
    };
    assert(count == common_len(n as int, ledger_txs@.len() as int, execution_infos@.len() as int));
    let mut k: usize = 0;
    while k < count
        invariant
            count == common_len(n as int, ledger_txs@.len() as int, execution_infos@.len() as int),
            count <= ledger_txs@.len(),
            count <= execution_infos@.len(),
            0 <= k <= count,
            forall|j: int| 0 <= j < k ==> (#[trigger] ledger_txs@[j]) is Some && execution_infos@[j] is Some,
        decreases count - k,
    {
        if ledger_txs[k].is_none() {
            assert(first_gap(ledger_txs@, execution_infos@, count as int, k as int));
            return Err(MissingValue::LedgerTransaction(k));
        }
        if execution_infos[k].is_none() {
            assert(first_gap(ledger_txs@, execution_infos@, count as int, k as int));
            return Err(MissingValue::ExecutionInfo(k));
        }
        k = k + 1;
    }
    let ghost ts = ledger_txs@;
    let ghost is = execution_infos@;
    let mut trest = ledger_txs;
    let mut irest = execution_infos;
    let mut out: Vec<(T, I)> = Vec::new();
    let mut k: usize = 0;
    assert(ts.skip(0) =~= ts && is.skip(0) =~= is);
    while k < count
        invariant
            count <= ts.len(),
            count <= is.len(),
            0 <= k <= count,
            trest@ == ts.skip(k as int),
            irest@ == is.skip(k as int),
            out@.len() == k,
            forall|j: int| 0 <= j < count ==> (#[trigger] ts[j]) is Some && is[j] is Some,
            forall|j: int| 0 <= j < k ==> #[trigger] out@[j] == (ts[j]->Some_0, is[j]->Some_0),
        decreases count - k,
    {
        let tx = trest.remove(0);
        let info = irest.remove(0);
        assert(tx == ts[k as int] && info == is[k as int]);
        match (tx, info) {
            (Some(t), Some(e)) => out.push((t, e)),
            _ => {},
        }
        proof {
            assert(trest@ =~= ts.skip(k + 1));
            assert(irest@ =~= is.skip(k + 1));
        }
        k = k + 1;
    }
    Ok(out)
}

} // verus!
