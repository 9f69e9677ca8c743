use vstd::prelude::*;
use vstd::string::StrSliceExecFns;
use crate::fixed::Fixed;
use crate::fixed::SCALE;

verus! {

/// The singleton ledger record.
///
/// `global_index` is the cumulative reward-per-unit-of-stake index, measured
/// in reward units per staked unit; it never decreases.  `total_staked` is
/// the principal currently under management, and equals the sum of all
/// holder balances after every operation.  `total_rewards` counts every
/// reward unit ever folded into the index, and `rewards_claimed` every
/// reward unit ever paid out.
#[derive(Clone, Copy, Debug, PartialEq, Eq, Structural)]
pub struct State {
    pub global_index: Fixed,
    pub total_staked: u128,
    pub total_rewards: u128,
    pub rewards_claimed: u128,
}

/// The ledger's configuration: the two asset denominations and the admin
/// address.
#[derive(Clone, Debug, PartialEq)]
pub struct Config {
    pub staked_token_denom: String,
    pub reward_denom: String,
    pub admin: String,
}

/// One participant's account.
///
/// `balance` is the staked principal.  `index` is the snapshot of the global
/// index as of this holder's last reconciliation, and never exceeds it.
/// `pending_rewards` is the integer reward owed and not yet paid, and
/// `dec_rewards` the fractional remainder of the last reconciliation,
/// carried forward so that repeated truncation loses nothing.
#[derive(Clone, Copy, Debug, PartialEq, Eq, Structural)]
pub struct Holder {
    pub balance: u128,
    pub index: Fixed,
    pub dec_rewards: Fixed,
    pub pending_rewards: u128,
}

impl Holder {
    /// Well-formedness: the fractional carry is a proper fraction,
    /// strictly below one whole reward unit.
    pub open spec fn wf(self) -> bool {
        self.dec_rewards.atomics < SCALE
    }

    pub fn new(balance: u128, index: Fixed, pending_rewards: u128, dec_rewards: Fixed) -> (r: Holder)
        ensures
            r == (Holder { balance, index, pending_rewards, dec_rewards }),
    {
        Holder { balance, index, pending_rewards, dec_rewards }
    }
}

/// One keyed record of the holder collection.
#[derive(Clone, Debug)]
pub struct HolderEntry {
    pub addr: String,
    pub holder: Holder,
}

/// The keyed collection mapping holder address to account record.
///
/// Entries are kept in strictly ascending address order, as a durable keyed
/// store would hold them; no two entries carry the same address.  A record
/// is never removed, even when its balance reaches zero.
#[derive(Debug)]
pub struct Holders {
    pub entries: Vec<HolderEntry>,
}

/// Strict lexicographic order on addresses, character by character.  It
/// coincides with the byte order of their UTF-8 encodings, which encode
/// code points order-preservingly.
pub open spec fn lex_lt(a: Seq<char>, b: Seq<char>) -> bool
    decreases a.len(),
{
    if b.len() == 0 {
        false
    } else if a.len() == 0 {
        true
    } else if a[0] != b[0] {
        a[0] < b[0]
    } else {
        lex_lt(a.drop_first(), b.drop_first())
    }
}

/// No address orders before itself.
pub proof fn lemma_lex_irrefl(a: Seq<char>)
    ensures
        !lex_lt(a, a),
    decreases a.len(),
{
    if a.len() > 0 {
        lemma_lex_irrefl(a.drop_first());
    }
}

/// Two distinct addresses order one way or the other.
pub proof fn lemma_lex_connected(a: Seq<char>, b: Seq<char>)
    requires
        a != b,
    ensures
        lex_lt(a, b) || lex_lt(b, a),
    decreases a.len(),
{
    if a.len() == 0 {
        if b.len() == 0 {
            assert(a =~= b);
        }
    } else if b.len() == 0 {
    } else if a[0] != b[0] {
    } else {
        if a.drop_first() == b.drop_first() {
            assert(a.drop_first().len() == a.len() - 1);
            assert(b.drop_first().len() == b.len() - 1);
            assert(a.len() == b.len());
            assert forall|k: int| 0 <= k < a.len() implies a[k] == b[k] by {
                if k > 0 {
                    assert(a[k] == a.drop_first()[k - 1]);
                    assert(b[k] == b.drop_first()[k - 1]);
                }
            }
            assert(a =~= b);
        }
        lemma_lex_connected(a.drop_first(), b.drop_first());
    }
}

/// The order is transitive.
pub proof fn lemma_lex_trans(a: Seq<char>, b: Seq<char>, c: Seq<char>)
    requires
        lex_lt(a, b),
        lex_lt(b, c),
    ensures
        lex_lt(a, c),
    decreases a.len(),
{
    if a.len() > 0 && a[0] == b[0] && b[0] == c[0] {
        lemma_lex_trans(a.drop_first(), b.drop_first(), c.drop_first());
    }
}

/// Where the first differing character decides, it decides the order.
pub proof fn lemma_lex_from_diff(a: Seq<char>, b: Seq<char>, i: int)
    requires
        0 <= i < a.len(),
        i < b.len(),
        forall|j: int| 0 <= j < i ==> a[j] == b[j],
        a[i] != b[i],
    ensures
        lex_lt(a, b) == (a[i] < b[i]),
    decreases i,
{
    if i > 0 {
        assert forall|j: int| 0 <= j < i - 1 implies a.drop_first()[j] == b.drop_first()[j] by {
            assert(a[j + 1] == b[j + 1]);
        }
        lemma_lex_from_diff(a.drop_first(), b.drop_first(), i - 1);
    }
}

/// Where one address is a prefix of the other, the shorter orders first.
pub proof fn lemma_lex_prefix(a: Seq<char>, b: Seq<char>, n: int)
    requires
        0 <= n <= a.len(),
        n <= b.len(),
        n == a.len() || n == b.len(),
        forall|j: int| 0 <= j < n ==> a[j] == b[j],
    ensures
        lex_lt(a, b) == (a.len() < b.len()),
    decreases n,
{
    if n > 0 {
        assert forall|j: int| 0 <= j < n - 1 implies a.drop_first()[j] == b.drop_first()[j] by {
            assert(a[j + 1] == b[j + 1]);
        }
        lemma_lex_prefix(a.drop_first(), b.drop_first(), n - 1);
    }
}

/// Whether `a` orders strictly before `b`, character by character.
pub fn str_lt(a: &str, b: &str) -> (r: bool)
    ensures
        r == lex_lt(a@, b@),
{
    let a_len: usize = a.unicode_len();
    let b_len: usize = b.unicode_len();
    let mut i: usize = 0;
    while i < a_len && i < b_len
        invariant
            a_len == a@.len(),
            b_len == b@.len(),
            i <= a_len,
            i <= b_len,
            forall|j: int| 0 <= j < i ==> a@[j] == b@[j],
        decreases a_len - i,
    {
        let ca: char = a.get_char(i);
        let cb: char = b.get_char(i);
        if ca != cb {
            proof {
                lemma_lex_from_diff(a@, b@, i as int);
            }
            return ca < cb;
        }
        i = i + 1;
    }
    proof {
        lemma_lex_prefix(a@, b@, i as int);
    }
    a_len < b_len
}

/// Whether some entry of `s` is keyed by `addr`.
pub open spec fn contains_key(s: Seq<HolderEntry>, addr: Seq<char>) -> bool {
    exists|i: int| 0 <= i < s.len() && s[i].addr@ == addr
}

/// The position of the entry keyed by `addr`; meaningful only when
/// `contains_key(s, addr)` holds and the keys are unique.
pub open spec fn key_index(s: Seq<HolderEntry>, addr: Seq<char>) -> int {
    choose|i: int| 0 <= i < s.len() && s[i].addr@ == addr
}

/// The account record stored under `addr`.
pub open spec fn holder_of(s: Seq<HolderEntry>, addr: Seq<char>) -> Holder {
    s[key_index(s, addr)].holder
}

/// No two entries carry the same address.
pub open spec fn unique_keys(s: Seq<HolderEntry>) -> bool {
    forall|i: int, j: int| 0 <= i < j < s.len() ==> s[i].addr@ != s[j].addr@
}

/// The entries stand in strictly ascending address order.
pub open spec fn sorted_by_addr(s: Seq<HolderEntry>) -> bool {
    forall|i: int, j: int| 0 <= i < j < s.len() ==> lex_lt(s[i].addr@, s[j].addr@)
}

/// The position of the first entry whose address orders strictly after
/// `addr`: in a sorted collection, the start of an exclusive cursor's page,
/// and the place where a fresh entry for `addr` belongs.
pub open spec fn first_above(s: Seq<HolderEntry>, addr: Seq<char>) -> int
    decreases s.len(),
{
    if s.len() == 0 {
        0
    } else if lex_lt(addr, s[0].addr@) {
        0
    } else {
        1 + first_above(s.drop_first(), addr)
    }
}

pub proof fn lemma_first_above_bounds(s: Seq<HolderEntry>, addr: Seq<char>)
    ensures
        0 <= first_above(s, addr) <= s.len(),
    decreases s.len(),
{
    if s.len() > 0 && !lex_lt(addr, s[0].addr@) {
        lemma_first_above_bounds(s.drop_first(), addr);
    }
}

pub proof fn lemma_first_above_is(s: Seq<HolderEntry>, addr: Seq<char>, i: int)
    requires
        0 <= i <= s.len(),
        forall|j: int| 0 <= j < i ==> !lex_lt(addr, s[j].addr@),
        i < s.len() ==> lex_lt(addr, s[i].addr@),
    ensures
        first_above(s, addr) == i,
    decreases s.len(),
{
    if s.len() > 0 && i > 0 {
        assert forall|j: int| 0 <= j < i - 1 implies !lex_lt(addr, s.drop_first()[j].addr@) by {
            assert(!lex_lt(addr, s[j + 1].addr@));
        }
        assert(i - 1 < s.drop_first().len() ==> lex_lt(addr, s.drop_first()[i - 1].addr@));
        lemma_first_above_is(s.drop_first(), addr, i - 1);
    }
}

/// The sum of all staked balances in the collection.
pub open spec fn sum_balances(s: Seq<HolderEntry>) -> int
    decreases s.len(),
{
    if s.len() == 0 {
        0
    } else {
        sum_balances(s.drop_last()) + s.last().holder.balance
    }
}

pub proof fn lemma_key_index(s: Seq<HolderEntry>, addr: Seq<char>)
    requires
        contains_key(s, addr),
    ensures
        0 <= key_index(s, addr) < s.len(),
        s[key_index(s, addr)].addr@ == addr,
{
}

pub proof fn lemma_key_index_is(s: Seq<HolderEntry>, addr: Seq<char>, i: int)
    requires
        unique_keys(s),
        0 <= i < s.len(),
        s[i].addr@ == addr,
    ensures
        key_index(s, addr) == i,
{
    assert(contains_key(s, addr));
    let k = key_index(s, addr);
    lemma_key_index(s, addr);
    if k < i {
        assert(s[k].addr@ != s[i].addr@);
    } else if i < k {
        assert(s[i].addr@ != s[k].addr@);
    }
}

/// Appending an entry adds its balance to the sum.
pub proof fn lemma_sum_push(s: Seq<HolderEntry>, e: HolderEntry)
    ensures
        sum_balances(s.push(e)) == sum_balances(s) + e.holder.balance,
{
    assert(s.push(e).drop_last() =~= s);
    assert(s.push(e).last() == e);
}

/// Inserting an entry adds its balance to the sum.
pub proof fn lemma_sum_insert(s: Seq<HolderEntry>, i: int, e: HolderEntry)
    requires
        0 <= i <= s.len(),
    ensures
        sum_balances(s.insert(i, e)) == sum_balances(s) + e.holder.balance,
    decreases s.len(),
{
    let t = s.insert(i, e);
    if i == s.len() {
        assert(t =~= s.push(e));
        lemma_sum_push(s, e);
    } else {
        assert(t.drop_last() =~= s.drop_last().insert(i, e));
        lemma_sum_insert(s.drop_last(), i, e);
        assert(t.last() == s.last());
    }
}

/// Replacing an entry moves the sum by the difference of the balances.
pub proof fn lemma_sum_update(s: Seq<HolderEntry>, i: int, e: HolderEntry)
    requires
        0 <= i < s.len(),
    ensures
        sum_balances(s.update(i, e)) == sum_balances(s) - s[i].holder.balance + e.holder.balance,
    decreases s.len(),
{
    let t = s.update(i, e);
    if i == s.len() - 1 {
        assert(t.drop_last() =~= s.drop_last());
        assert(t.last() == e);
    } else {
        assert(t.drop_last() =~= s.drop_last().update(i, e));
        lemma_sum_update(s.drop_last(), i, e);
        assert(t.last() == s.last());
    }
}

impl Holders {
    /// Well-formedness of the collection under a given global index: the
    /// addresses ascend strictly (so keys are unique), every carry is a
    /// proper fraction, and no holder's snapshot runs ahead of the global
    /// index.
    pub open spec fn wf(self, global_index: Fixed) -> bool {
        &&& unique_keys(self.entries@)
        &&& sorted_by_addr(self.entries@)
        &&& forall|i: int|
            0 <= i < self.entries@.len() ==> (#[trigger] self.entries@[i].holder).wf()
        &&& forall|i: int|
            0 <= i < self.entries@.len() ==> (
                #[trigger] self.entries@[i].holder).index.atomics <= global_index.atomics
    }

    /// An empty collection.
    pub fn new() -> (r: Holders)
        ensures
            r.entries@.len() == 0,
    {
        Holders { entries: Vec::new() }
    }

    /// The position of the entry keyed by `addr`, if one exists.
    pub fn find(&self, addr: &String) -> (r: Option<usize>)
        ensures
            match r {
                Some(i) => i < self.entries@.len() && self.entries@[i as int].addr@ == addr@,
                None => !contains_key(self.entries@, addr@),
            },
    {
        let n = self.entries.len();
        let mut i: usize = 0;
        while i < n
            invariant
                n == self.entries@.len(),
                i <= n,
                forall|j: int| 0 <= j < i ==> self.entries@[j].addr@ != addr@,
            decreases n - i,
        {
            if self.entries[i].addr == *addr {
                return Some(i);
            }
            i = i + 1;
        }
        None
    }

    /// The account record stored under `addr`, if one exists.
    pub fn may_load(&self, addr: &String) -> (r: Option<Holder>)
        requires
            unique_keys(self.entries@),
        ensures
            r is Some <==> contains_key(self.entries@, addr@),
            (r matches Some(h) ==> h == holder_of(self.entries@, addr@)),
    {
        match self.find(addr) {
            Some(i) => {
                proof {
                    lemma_key_index_is(self.entries@, addr@, i as int);
                }
                Some(self.entries[i].holder)
            },
            None => None,
        }
    }

    /// Store `holder` under `addr`: replace the record if the address is
    /// already present, insert a fresh entry at its place in the address
    /// order otherwise.
    pub fn save(&mut self, addr: &String, holder: Holder)
        requires
            unique_keys(old(self).entries@),
            sorted_by_addr(old(self).entries@),
        ensures
            unique_keys(final(self).entries@),
            sorted_by_addr(final(self).entries@),
            ({
                let s = old(self).entries@;
                if contains_key(s, addr@) {
                    final(self).entries@ == s.update(
                        key_index(s, addr@),
                        (HolderEntry { addr: s[key_index(s, addr@)].addr, holder }),
                    )
                } else {
                    final(self).entries@ == s.insert(
                        first_above(s, addr@),
                        (HolderEntry { addr: *addr, holder }),
                    )
                }
            }),
            contains_key(final(self).entries@, addr@),
            holder_of(final(self).entries@, addr@) == holder,
            sum_balances(final(self).entries@) == sum_balances(old(self).entries@)
                + holder.balance
                - (if contains_key(old(self).entries@, addr@) {
                    holder_of(old(self).entries@, addr@).balance as int
                } else {
                    0
                }),
    {
        let ghost s = self.entries@;
        match self.find(addr) {
            Some(i) => {
                proof {
                    lemma_key_index_is(s, addr@, i as int);
                    lemma_sum_update(
                        s,
                        i as int,
                        HolderEntry { addr: s[i as int].addr, holder },
                    );
                }
                let elem = &mut self.entries[i];
                elem.holder = holder;
                proof {
                    assert(self.entries@ == s.update(
                        i as int,
                        HolderEntry { addr: s[i as int].addr, holder },
                    ));
                    assert forall|p: int, q: int|
                        0 <= p < q < self.entries@.len() implies self.entries@[p].addr@
                        != self.entries@[q].addr@ && lex_lt(
                        self.entries@[p].addr@,
                        self.entries@[q].addr@,
                    ) by {
                        assert(self.entries@[p].addr == s[p].addr);
                        assert(self.entries@[q].addr == s[q].addr);
                    }
                    lemma_key_index_is(self.entries@, addr@, i as int);
                }
            },
            None => {
                let n: usize = self.entries.len();
                let mut pos: usize = 0;
                while pos < n && !str_lt(addr.as_str(), self.entries[pos].addr.as_str())
                    invariant
                        n == self.entries@.len(),
                        s == self.entries@,
                        pos <= n,
                        forall|j: int| 0 <= j < pos ==> !lex_lt(addr@, self.entries@[j].addr@),
                    decreases n - pos,
                {
                    pos = pos + 1;
                }
                proof {
                    lemma_first_above_is(s, addr@, pos as int);
                    lemma_sum_insert(s, pos as int, HolderEntry { addr: *addr, holder });
                }
                self.entries.insert(pos, HolderEntry { addr: addr.clone(), holder });
                proof {
                    let pi = pos as int;
                    let t = self.entries@;
                    assert(t == s.insert(pi, HolderEntry { addr: *addr, holder }));
                    assert forall|p: int, q: int| 0 <= p < q < t.len() implies lex_lt(
                        t[p].addr@,
                        t[q].addr@,
                    ) by {
                        if q < pi {
                            assert(t[p] == s[p]);
                            assert(t[q] == s[q]);
                        } else if p > pi {
                            assert(t[p] == s[p - 1]);
                            assert(t[q] == s[q - 1]);
                        } else if p < pi && q == pi {
                            // every address left of the insertion point
                            // orders before the new one: the scan found no
                            // later position, and a fresh address never ties
                            assert(t[p] == s[p]);
                            assert(!lex_lt(addr@, s[p].addr@));
                            if s[p].addr@ == addr@ {
                                assert(contains_key(s, addr@));
                            }
                            lemma_lex_connected(s[p].addr@, addr@);
                        } else if p == pi && q > pi {
                            assert(t[q] == s[q - 1]);
                            assert(lex_lt(addr@, s[pi].addr@));
                            if q - 1 > pi {
                                lemma_lex_trans(addr@, s[pi].addr@, s[q - 1].addr@);
                            }
                        } else {
                            assert(t[p] == s[p]);
                            assert(t[q] == s[q - 1]);
                        }
                    }
                    assert forall|p: int, q: int| 0 <= p < q < t.len() implies t[p].addr@
                        != t[q].addr@ by {
                        if t[p].addr@ == t[q].addr@ {
                            lemma_lex_irrefl(t[p].addr@);
                        }
                    }
                    assert(t[pi].addr@ == addr@);
                    lemma_key_index_is(t, addr@, pi);
                }
            },
        }
    }
}

} // verus!
