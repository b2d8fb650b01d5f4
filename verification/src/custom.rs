//! Types and decisions of the custom rollup client: the messages it
//! exchanges with the settlement contract, and the extraction of the
//! balances payload from a transaction-simulation response.

use vstd::prelude::*;

verus! {

/// A balance movement, as the rollup's clients submit it.
#[derive(Clone, Debug, PartialEq)]
pub struct Transfer {
    pub from: String,
    pub to: String,
    pub amount: String,
}

/// The execute message the settlement contract accepts.
#[derive(Clone, Debug, PartialEq)]
pub enum ExecuteTransfers {
    TransferBalance { transfers: Vec<Transfer> },
}

/// Connection and signing settings of the client.
#[derive(Clone, Debug, PartialEq)]
pub struct CustomClientConfig {
    pub node_host: String,
    pub chain_id: String,
    pub contract: String,
    pub sender_mnemonic: String,
    pub sender_password: String,
    pub sender_account_number: u64,
}

/// Read-only queries the client sends to the contract.
#[derive(Clone, Debug, PartialEq)]
pub enum QueryMsg {
    Balances {},
}

/// Every account with its balance, as the contract reports them.
#[derive(Clone, Debug, PartialEq)]
pub struct Balances {
    pub balances: Vec<(String, String)>,
}

/// What posting application data answers with.
#[derive(Clone, Debug, PartialEq)]
pub enum PostAppData {
    Balances(Balances),
    Error(String),
}

/// The bytes after the last occurrence of `b`, or all of them when `b`
/// never occurs.
pub open spec fn after_last(s: Seq<u8>, b: u8) -> Seq<u8>
    decreases s.len(),
{
    if s.len() == 0 {
        s
    } else if s.last() == b {
        Seq::empty()
    } else {
        after_last(s.drop_last(), b).push(s.last())
    }
}

/// The balances payload inside a simulation response: the bytes after the
/// last `-` when one occurs, else after the last `.` (the whole input when
/// neither occurs).
pub open spec fn simulation_payload_spec(s: Seq<u8>) -> Seq<u8> {
    if s.contains(45u8) {
        after_last(s, 45u8)
    } else {
        after_last(s, 46u8)
    }
}

/// When `b` occurs last at `i`, what follows `i` is what `after_last`
/// keeps.
proof fn lemma_after_last_at(s: Seq<u8>, b: u8, i: int)
    requires
        0 <= i < s.len(),
        s[i] == b,
        forall|j: int| i < j < s.len() ==> s[j] != b,
    ensures
        after_last(s, b) == s.skip(i + 1),
    decreases s.len(),
{
    if i == s.len() - 1 {
        assert(s.last() == b);
        assert(s.skip(i + 1) =~= Seq::empty());
    } else {
        assert(s.last() != b);
        assert(forall|j: int| i < j < s.len() - 1 ==> s.drop_last()[j] == s[j]);
        assert(s.drop_last()[i] == b);
        lemma_after_last_at(s.drop_last(), b, i);
        assert(after_last(s, b) =~= s.skip(i + 1)) by {
            assert(s.drop_last().skip(i + 1) =~= s.skip(i + 1).drop_last());
        }
    }
}

/// When `b` never occurs, `after_last` keeps everything.
proof fn lemma_after_last_absent(s: Seq<u8>, b: u8)
    requires
        forall|j: int| 0 <= j < s.len() ==> s[j] != b,
    ensures
        after_last(s, b) == s,
    decreases s.len(),
{
    if s.len() > 0 {
        lemma_after_last_absent(s.drop_last(), b);
        assert(after_last(s, b) =~= s);
    }
}

/// The bytes after the last occurrence of `code`, or all of them.
fn bytes_after_last(data: &Vec<u8>, code: u8) -> (r: Vec<u8>)
    ensures
        r@ == after_last(data@, code),
{
    let mut i: usize = data.len();
    while i > 0
        invariant
            0 <= i <= data@.len(),
            forall|j: int| i <= j < data@.len() ==> data@[j] != code,
        decreases i,
    {
        if data[i - 1] == code {
            let mut r: Vec<u8> = Vec::new();
            let mut k: usize = i;
            while k < data.len()
                invariant
                    i <= k <= data@.len(),
                    r@ =~= data@.subrange(i as int, k as int),
                decreases data@.len() - k,
            {
                r.push(data[k]);
                assert(r@ =~= data@.subrange(i as int, k + 1));
                k += 1;
            }
            proof {
                lemma_after_last_at(data@, code, i - 1);
                assert(r@ =~= data@.skip(i as int));
            }
            return r;
        }
        i -= 1;
    }
    proof {
        lemma_after_last_absent(data@, code);
    }
    let mut r: Vec<u8> = Vec::new();
    let mut k: usize = 0;
    while k < data.len()
        invariant
            0 <= k <= data@.len(),
            r@ =~= data@.take(k as int),
        decreases data@.len() - k,
    {
        r.push(data[k]);
        assert(r@ =~= data@.take(k + 1));
        k += 1;
    }
    proof {
        assert(r@ =~= data@);
    }
    r
}

/// Whether the bytes contain `code`.
fn bytes_contain(data: &Vec<u8>, code: u8) -> (r: bool)
    ensures
        r == data@.contains(code),
{
    let mut i: usize = 0;
    while i < data.len()
        invariant
            0 <= i <= data@.len(),
            forall|j: int| 0 <= j < i ==> data@[j] != code,
        decreases data@.len() - i,
    {
        if data[i] == code {
            return true;
        }
        i += 1;
    }
    proof {
        if data@.contains(code) {
            let j = choose|j: int| 0 <= j < data@.len() && data@[j] == code;
            assert(data@[j] != code);
        }
    }
    false
}

/// Extracts the balances payload from a simulation response's data bytes:
/// what follows the last `-`, or, when there is none, the last `.`.
pub fn simulation_payload(data: &Vec<u8>) -> (r: Vec<u8>)
    ensures
        r@ == simulation_payload_spec(data@),
{
    if bytes_contain(data, 45u8) {
        bytes_after_last(data, 45u8)
    } else {
        bytes_after_last(data, 46u8)
    }
}

} // verus!
