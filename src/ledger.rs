//! Account balances kept in a vector with unique identities, their lookup
//! by identity, and the sums of all principals and of all gains.
use vstd::prelude::*;

verus! {

/// The balances recorded for one identity.
pub struct Account {
    pub addr: String,
    pub principal: u128,
    pub gain: u128,
}

/// `s[i]` is the record of identity `a`.
pub open spec fn holds_at(s: Seq<Account>, a: Seq<char>, i: int) -> bool {
    0 <= i < s.len() && s[i].addr@ == a
}

/// No identity is recorded twice.
pub open spec fn unique_addrs(s: Seq<Account>) -> bool {
    forall|i: int, j: int|
        0 <= i < s.len() && 0 <= j < s.len() && s[i].addr@ == s[j].addr@ ==> i == j
}

/// The principal recorded for `a`, zero where `a` has no record.
pub open spec fn principal_in(s: Seq<Account>, a: Seq<char>) -> nat {
    if exists|i: int| holds_at(s, a, i) {
        s[choose|i: int| holds_at(s, a, i)].principal as nat
    } else {
        0
    }
}

/// The gain recorded for `a`, zero where `a` has no record.
pub open spec fn gain_in(s: Seq<Account>, a: Seq<char>) -> nat {
    if exists|i: int| holds_at(s, a, i) {
        s[choose|i: int| holds_at(s, a, i)].gain as nat
    } else {
        0
    }
}

/// The sum of the principals of all records.
pub open spec fn sum_principal(s: Seq<Account>) -> nat
    decreases s.len(),
{
    if s.len() == 0 {
        0
    } else {
        sum_principal(s.drop_last()) + s.last().principal as nat
    }
}

/// The sum of the gains of all records.
pub open spec fn sum_gain(s: Seq<Account>) -> nat
    decreases s.len(),
{
    if s.len() == 0 {
        0
    } else {
        sum_gain(s.drop_last()) + s.last().gain as nat
    }
}

/// With unique identities, the record found at `i` is the one looked up.
pub proof fn lemma_lookup_at(s: Seq<Account>, a: Seq<char>, i: int)
    requires
        unique_addrs(s),
        holds_at(s, a, i),
    ensures
        principal_in(s, a) == s[i].principal,
        gain_in(s, a) == s[i].gain,
{
    let j = choose|j: int| holds_at(s, a, j);
    assert(holds_at(s, a, j));
}

/// Replacing one record by one of the same identity changes the lookups of
/// that identity only.
pub proof fn lemma_lookup_update(s: Seq<Account>, i: int, x: Account, b: Seq<char>)
    requires
        unique_addrs(s),
        0 <= i < s.len(),
        x.addr@ == s[i].addr@,
    ensures
        unique_addrs(s.update(i, x)),
        b == s[i].addr@ ==> principal_in(s.update(i, x), b) == x.principal,
        b == s[i].addr@ ==> gain_in(s.update(i, x), b) == x.gain,
        b != s[i].addr@ ==> principal_in(s.update(i, x), b) == principal_in(s, b),
        b != s[i].addr@ ==> gain_in(s.update(i, x), b) == gain_in(s, b),
{
    let t = s.update(i, x);
    assert(unique_addrs(t)) by {
        assert forall|k: int, l: int|
            0 <= k < t.len() && 0 <= l < t.len() && t[k].addr@ == t[l].addr@ implies k == l by {
            assert(t[k].addr@ == s[k].addr@);
            assert(t[l].addr@ == s[l].addr@);
        }
    }
    if b == s[i].addr@ {
        lemma_lookup_at(t, b, i);
    } else if exists|k: int| holds_at(s, b, k) {
        let k = choose|k: int| holds_at(s, b, k);
        lemma_lookup_at(s, b, k);
        lemma_lookup_at(t, b, k);
    } else {
        assert forall|k: int| !holds_at(t, b, k) by {
            if 0 <= k < t.len() {
                assert(t[k].addr@ == s[k].addr@);
                assert(!holds_at(s, b, k));
            }
        }
    }
}

/// Appending a record of a new identity gives it its values and leaves the
/// other lookups as they were.
pub proof fn lemma_lookup_push(s: Seq<Account>, x: Account, b: Seq<char>)
    requires
        unique_addrs(s),
        forall|k: int| !holds_at(s, x.addr@, k),
    ensures
        unique_addrs(s.push(x)),
        b == x.addr@ ==> principal_in(s.push(x), b) == x.principal,
        b == x.addr@ ==> gain_in(s.push(x), b) == x.gain,
        b != x.addr@ ==> principal_in(s.push(x), b) == principal_in(s, b),
        b != x.addr@ ==> gain_in(s.push(x), b) == gain_in(s, b),
        sum_principal(s.push(x)) == sum_principal(s) + x.principal,
        sum_gain(s.push(x)) == sum_gain(s) + x.gain,
{
    let t = s.push(x);
    assert(t.drop_last() =~= s);
    assert(unique_addrs(t)) by {
        assert forall|k: int, l: int|
            0 <= k < t.len() && 0 <= l < t.len() && t[k].addr@ == t[l].addr@ implies k == l by {
            if k < s.len() && l == s.len() {
                assert(holds_at(s, x.addr@, k));
            } else if l < s.len() && k == s.len() {
                assert(holds_at(s, x.addr@, l));
            }
        }
    }
    if b == x.addr@ {
        lemma_lookup_at(t, b, s.len() as int);
    } else if exists|k: int| holds_at(s, b, k) {
        let k = choose|k: int| holds_at(s, b, k);
        lemma_lookup_at(s, b, k);
        lemma_lookup_at(t, b, k);
    } else {
        assert forall|k: int| !holds_at(t, b, k) by {
            if 0 <= k < s.len() {
                assert(!holds_at(s, b, k));
            }
        }
    }
}

/// Replacing one record changes each sum by the difference of that record's values.
pub proof fn lemma_sum_update(s: Seq<Account>, i: int, x: Account)
    requires
        0 <= i < s.len(),
    ensures
        sum_principal(s.update(i, x)) + s[i].principal == sum_principal(s) + x.principal,
        sum_gain(s.update(i, x)) + s[i].gain == sum_gain(s) + x.gain,
    decreases s.len(),
{
    let t = s.update(i, x);
    if i == s.len() - 1 {
        assert(t.drop_last() =~= s.drop_last());
    } else {
        assert(t.drop_last() =~= s.drop_last().update(i, x));
        lemma_sum_update(s.drop_last(), i, x);
    }
}

/// One record's principal and gain are at most their sums.
pub proof fn lemma_principal_le_sum(s: Seq<Account>, i: int)
    requires
        0 <= i < s.len(),
    ensures
        s[i].principal <= sum_principal(s),
        s[i].gain <= sum_gain(s),
    decreases s.len(),
{
    if i < s.len() - 1 {
        lemma_principal_le_sum(s.drop_last(), i);
    }
}

/// Every looked-up principal and gain is at most its sum.
pub proof fn lemma_lookup_le_sum(s: Seq<Account>, a: Seq<char>)
    ensures
        principal_in(s, a) <= sum_principal(s),
        gain_in(s, a) <= sum_gain(s),
{
    if exists|i: int| holds_at(s, a, i) {
        let i = choose|i: int| holds_at(s, a, i);
        lemma_principal_le_sum(s, i);
    }
}

/// Two sequences with the same principals, record by record, have the same sum.
pub proof fn lemma_sum_same_principals(s: Seq<Account>, t: Seq<Account>)
    requires
        s.len() == t.len(),
        forall|k: int| 0 <= k < s.len() ==> s[k].principal == t[k].principal,
    ensures
        sum_principal(s) == sum_principal(t),
    decreases s.len(),
{
    if s.len() > 0 {
        lemma_sum_same_principals(s.drop_last(), t.drop_last());
    }
}

/// The sums over a prefix are at most the sums over the whole.
pub proof fn lemma_sum_prefix_le(s: Seq<Account>, i: int)
    requires
        0 <= i <= s.len(),
    ensures
        sum_principal(s.take(i)) <= sum_principal(s),
        sum_gain(s.take(i)) <= sum_gain(s),
    decreases s.len(),
{
    if i == s.len() {
        assert(s.take(i) =~= s);
    } else {
        assert(s.take(i) =~= s.drop_last().take(i));
        lemma_sum_prefix_le(s.drop_last(), i);
    }
}

/// The sums over one more record of a prefix.
pub proof fn lemma_sum_prefix_step(s: Seq<Account>, i: int)
    requires
        0 <= i < s.len(),
    ensures
        sum_principal(s.take(i + 1)) == sum_principal(s.take(i)) + s[i].principal,
        sum_gain(s.take(i + 1)) == sum_gain(s.take(i)) + s[i].gain,
{
    assert(s.take(i + 1).drop_last() =~= s.take(i));
}

} // verus!
