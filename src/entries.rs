use vstd::prelude::*;
use crate::types::{Address, TokenId, TokenRecord};

verus! {

/// A non-zero balance of one owner in one token.
#[derive(Clone, Copy, Debug, PartialEq, Eq, Structural)]
pub struct BalanceEntry {
    pub token_id: TokenId,
    pub owner: Address,
    pub amount: u64,
}

/// A token identifier with its record.
#[derive(Clone, Copy, Debug, PartialEq, Eq, Structural)]
pub struct TokenEntry {
    pub token_id: TokenId,
    pub record: TokenRecord,
}

pub open spec fn holds_at(s: Seq<BalanceEntry>, t: TokenId, o: Address, i: int) -> bool {
    0 <= i < s.len() && s[i].token_id == t && s[i].owner == o
}

/// No two entries share a token and an owner, and none holds zero.
pub open spec fn balances_wf(s: Seq<BalanceEntry>) -> bool {
    &&& forall|i: int, j: int|
        0 <= i < s.len() && 0 <= j < s.len() && i != j && #[trigger] s[i].token_id == #[trigger] s[j].token_id
            ==> s[i].owner != s[j].owner
    &&& forall|i: int| 0 <= i < s.len() ==> #[trigger] s[i].amount > 0
}

/// The balance of `o` in `t`; zero where no entry holds it.
pub open spec fn balance_in(s: Seq<BalanceEntry>, t: TokenId, o: Address) -> nat {
    if exists|i: int| holds_at(s, t, o, i) {
        s[choose|i: int| holds_at(s, t, o, i)].amount as nat
    } else {
        0
    }
}

/// The sum of all balances in `t`.
pub open spec fn total_in(s: Seq<BalanceEntry>, t: TokenId) -> nat
    decreases s.len(),
{
    if s.len() == 0 {
        0
    } else {
        total_in(s.drop_last(), t) + if s.last().token_id == t {
            s.last().amount as nat
        } else {
            0
        }
    }
}

pub proof fn lemma_balance_at(s: Seq<BalanceEntry>, t: TokenId, o: Address, i: int)
    requires
        balances_wf(s),
        holds_at(s, t, o, i),
    ensures
        balance_in(s, t, o) == s[i].amount,
{
    let j = choose|j: int| holds_at(s, t, o, j);
    assert(s[i].token_id == s[j].token_id);
}

pub proof fn lemma_total_push(s: Seq<BalanceEntry>, e: BalanceEntry, t: TokenId)
    ensures
        total_in(s.push(e), t) == total_in(s, t) + if e.token_id == t { e.amount as nat } else { 0 },
{
    assert(s.push(e).drop_last() =~= s);
}

pub proof fn lemma_total_update(s: Seq<BalanceEntry>, i: int, e: BalanceEntry, t: TokenId)
    requires
        0 <= i < s.len(),
        e.token_id == s[i].token_id,
    ensures
        total_in(s.update(i, e), t) + (if s[i].token_id == t { s[i].amount as nat } else { 0 })
            == total_in(s, t) + if e.token_id == t { e.amount as nat } else { 0 },
    decreases s.len(),
{
    if i == s.len() - 1 {
        assert(s.update(i, e).drop_last() =~= s.drop_last());
    } else {
        assert(s.update(i, e).drop_last() =~= s.drop_last().update(i, e));
        lemma_total_update(s.drop_last(), i, e, t);
    }
}

pub proof fn lemma_total_remove(s: Seq<BalanceEntry>, i: int, t: TokenId)
    requires
        0 <= i < s.len(),
    ensures
        total_in(s.remove(i), t) + (if s[i].token_id == t { s[i].amount as nat } else { 0 })
            == total_in(s, t),
    decreases s.len(),
{
    if i == s.len() - 1 {
        assert(s.remove(i) =~= s.drop_last());
    } else {
        assert(s.remove(i).drop_last() =~= s.drop_last().remove(i));
        lemma_total_remove(s.drop_last(), i, t);
    }
}

pub proof fn lemma_entry_le_total(s: Seq<BalanceEntry>, i: int)
    requires
        0 <= i < s.len(),
    ensures
        s[i].amount <= total_in(s, s[i].token_id),
    decreases s.len(),
{
    if i < s.len() - 1 {
        lemma_entry_le_total(s.drop_last(), i);
    }
}

pub open spec fn same_key(a: BalanceEntry, b: BalanceEntry) -> bool {
    a.token_id == b.token_id && a.owner == b.owner
}

/// Replacing an entry by one of the same key and a non-zero amount changes that
/// key's balance alone.
pub proof fn lemma_balance_update(s: Seq<BalanceEntry>, i: int, e: BalanceEntry)
    requires
        balances_wf(s),
        0 <= i < s.len(),
        same_key(s[i], e),
        e.amount > 0,
    ensures
        balances_wf(s.update(i, e)),
        forall|t: TokenId, o: Address|
            #[trigger] balance_in(s.update(i, e), t, o) == if t == e.token_id && o == e.owner {
                e.amount as nat
            } else {
                balance_in(s, t, o)
            },
{
    let s2 = s.update(i, e);
    assert(balances_wf(s2)) by {
        assert forall|a: int, b: int|
            0 <= a < s2.len() && 0 <= b < s2.len() && a != b && #[trigger] s2[a].token_id
                == #[trigger] s2[b].token_id implies s2[a].owner != s2[b].owner by {
            assert(s[a].token_id == s[b].token_id);
        }
    }
    assert forall|t: TokenId, o: Address|
        #[trigger] balance_in(s2, t, o) == if t == e.token_id && o == e.owner {
            e.amount as nat
        } else {
            balance_in(s, t, o)
        } by {
        if t == e.token_id && o == e.owner {
            lemma_balance_at(s2, t, o, i);
        } else if exists|j: int| holds_at(s, t, o, j) {
            let j = choose|j: int| holds_at(s, t, o, j);
            lemma_balance_at(s, t, o, j);
            lemma_balance_at(s2, t, o, j);
        } else {
            assert forall|j: int| !holds_at(s2, t, o, j) by {
                if holds_at(s2, t, o, j) {
                    assert(holds_at(s, t, o, j));
                }
            }
        }
    }
}

/// Appending an entry of a new key gives that key its amount and no other change.
pub proof fn lemma_balance_push(s: Seq<BalanceEntry>, e: BalanceEntry)
    requires
        balances_wf(s),
        forall|j: int| !holds_at(s, e.token_id, e.owner, j),
        e.amount > 0,
    ensures
        balances_wf(s.push(e)),
        forall|t: TokenId, o: Address|
            #[trigger] balance_in(s.push(e), t, o) == if t == e.token_id && o == e.owner {
                e.amount as nat
            } else {
                balance_in(s, t, o)
            },
{
    let s2 = s.push(e);
    assert(balances_wf(s2)) by {
        assert forall|a: int, b: int|
            0 <= a < s2.len() && 0 <= b < s2.len() && a != b && #[trigger] s2[a].token_id
                == #[trigger] s2[b].token_id implies s2[a].owner != s2[b].owner by {
            if a == s.len() {
                assert(!holds_at(s, e.token_id, e.owner, b));
            } else if b == s.len() {
                assert(!holds_at(s, e.token_id, e.owner, a));
            } else {
                assert(s[a].token_id == s[b].token_id);
            }
        }
    }
    assert forall|t: TokenId, o: Address|
        #[trigger] balance_in(s2, t, o) == if t == e.token_id && o == e.owner {
            e.amount as nat
        } else {
            balance_in(s, t, o)
        } by {
        if t == e.token_id && o == e.owner {
            lemma_balance_at(s2, t, o, s.len() as int);
        } else if exists|j: int| holds_at(s, t, o, j) {
            let j = choose|j: int| holds_at(s, t, o, j);
            lemma_balance_at(s, t, o, j);
            lemma_balance_at(s2, t, o, j);
        } else {
            assert forall|j: int| !holds_at(s2, t, o, j) by {
                if holds_at(s2, t, o, j) && j < s.len() {
                    assert(holds_at(s, t, o, j));
                }
            }
        }
    }
}

/// Removing an entry takes its key's balance to zero and changes nothing else.
pub proof fn lemma_balance_remove(s: Seq<BalanceEntry>, i: int)
    requires
        balances_wf(s),
        0 <= i < s.len(),
    ensures
        balances_wf(s.remove(i)),
        forall|t: TokenId, o: Address|
            #[trigger] balance_in(s.remove(i), t, o) == if t == s[i].token_id && o == s[i].owner {
                0
            } else {
                balance_in(s, t, o)
            },
{
    let s2 = s.remove(i);
    assert forall|j: int| 0 <= j < s2.len() implies #[trigger] s2[j] == if j < i {
        s[j]
    } else {
        s[j + 1]
    } by {}
    assert(balances_wf(s2)) by {
        assert forall|a: int, b: int|
            0 <= a < s2.len() && 0 <= b < s2.len() && a != b && #[trigger] s2[a].token_id
                == #[trigger] s2[b].token_id implies s2[a].owner != s2[b].owner by {
            let a1 = if a < i { a } else { a + 1 };
            let b1 = if b < i { b } else { b + 1 };
            assert(s[a1].token_id == s[b1].token_id);
        }
        assert forall|a: int| 0 <= a < s2.len() implies #[trigger] s2[a].amount > 0 by {
            let a1 = if a < i { a } else { a + 1 };
            assert(s[a1].amount > 0);
        }
    }
    assert forall|t: TokenId, o: Address|
        #[trigger] balance_in(s2, t, o) == if t == s[i].token_id && o == s[i].owner {
            0
        } else {
            balance_in(s, t, o)
        } by {
        if t == s[i].token_id && o == s[i].owner {
            assert forall|j: int| !holds_at(s2, t, o, j) by {
                if holds_at(s2, t, o, j) {
                    let j1 = if j < i { j } else { j + 1 };
                    assert(s[j1].token_id == s[i].token_id);
                }
            }
        } else if exists|j: int| holds_at(s, t, o, j) {
            let j = choose|j: int| holds_at(s, t, o, j);
            lemma_balance_at(s, t, o, j);
            let j2 = if j < i { j } else { j - 1 };
            assert(holds_at(s2, t, o, j2));
            lemma_balance_at(s2, t, o, j2);
        } else {
            assert forall|j: int| !holds_at(s2, t, o, j) by {
                if holds_at(s2, t, o, j) {
                    let j1 = if j < i { j } else { j + 1 };
                    assert(holds_at(s, t, o, j1));
                }
            }
        }
    }
}

pub proof fn lemma_balance_le_total(s: Seq<BalanceEntry>, t: TokenId, o: Address)
    requires
        balances_wf(s),
    ensures
        balance_in(s, t, o) <= total_in(s, t),
{
    if exists|j: int| holds_at(s, t, o, j) {
        let j = choose|j: int| holds_at(s, t, o, j);
        lemma_balance_at(s, t, o, j);
        lemma_entry_le_total(s, j);
    }
}

pub open spec fn token_at(s: Seq<TokenEntry>, t: TokenId, i: int) -> bool {
    0 <= i < s.len() && s[i].token_id == t
}

/// No two entries share a token identifier.
pub open spec fn tokens_wf(s: Seq<TokenEntry>) -> bool {
    forall|i: int, j: int|
        0 <= i < s.len() && 0 <= j < s.len() && i != j ==> #[trigger] s[i].token_id != #[trigger] s[j].token_id
}

pub open spec fn token_map(s: Seq<TokenEntry>) -> Map<TokenId, TokenRecord> {
    Map::new(
        |t: TokenId| exists|i: int| token_at(s, t, i),
        |t: TokenId| s[choose|i: int| token_at(s, t, i)].record,
    )
}

pub proof fn lemma_token_at(s: Seq<TokenEntry>, t: TokenId, i: int)
    requires
        tokens_wf(s),
        token_at(s, t, i),
    ensures
        token_map(s).contains_key(t),
        token_map(s)[t] == s[i].record,
{
    let j = choose|j: int| token_at(s, t, j);
    assert(token_at(s, t, j));
}

pub proof fn lemma_token_update(s: Seq<TokenEntry>, i: int, r: TokenRecord)
    requires
        tokens_wf(s),
        0 <= i < s.len(),
    ensures
        tokens_wf(s.update(i, TokenEntry { token_id: s[i].token_id, record: r })),
        token_map(s.update(i, TokenEntry { token_id: s[i].token_id, record: r }))
            == token_map(s).insert(s[i].token_id, r),
{
    let e = TokenEntry { token_id: s[i].token_id, record: r };
    let s2 = s.update(i, e);
    assert forall|t: TokenId| #[trigger] token_map(s2).contains_key(t) == token_map(s).insert(
        s[i].token_id,
        r,
    ).contains_key(t) && (token_map(s2).contains_key(t) ==> token_map(s2)[t] == token_map(
        s,
    ).insert(s[i].token_id, r)[t]) by {
        if t == s[i].token_id {
            lemma_token_at(s2, t, i);
        } else if exists|j: int| token_at(s, t, j) {
            let j = choose|j: int| token_at(s, t, j);
            lemma_token_at(s, t, j);
            lemma_token_at(s2, t, j);
        } else {
            if exists|j: int| token_at(s2, t, j) {
                let j = choose|j: int| token_at(s2, t, j);
                assert(token_at(s, t, j));
            }
        }
    }
    assert(token_map(s2) =~= token_map(s).insert(s[i].token_id, r));
}

pub proof fn lemma_token_push(s: Seq<TokenEntry>, e: TokenEntry)
    requires
        tokens_wf(s),
        !token_map(s).contains_key(e.token_id),
    ensures
        tokens_wf(s.push(e)),
        token_map(s.push(e)) == token_map(s).insert(e.token_id, e.record),
{
    let s2 = s.push(e);
    assert forall|j: int| 0 <= j < s.len() implies #[trigger] s[j].token_id != e.token_id by {
        if s[j].token_id == e.token_id {
            assert(token_at(s, e.token_id, j));
        }
    }
    assert(tokens_wf(s2));
    assert forall|t: TokenId| #[trigger] token_map(s2).contains_key(t) == token_map(s).insert(
        e.token_id,
        e.record,
    ).contains_key(t) && (token_map(s2).contains_key(t) ==> token_map(s2)[t] == token_map(
        s,
    ).insert(e.token_id, e.record)[t]) by {
        if t == e.token_id {
            lemma_token_at(s2, t, s.len() as int);
        } else if exists|j: int| token_at(s, t, j) {
            let j = choose|j: int| token_at(s, t, j);
            lemma_token_at(s, t, j);
            lemma_token_at(s2, t, j);
        } else {
            if exists|j: int| token_at(s2, t, j) {
                let j = choose|j: int| token_at(s2, t, j);
                assert(token_at(s, t, j));
            }
        }
    }
    assert(token_map(s2) =~= token_map(s).insert(e.token_id, e.record));
}

} // verus!
