//! An on-ledger staking registry for non-fungible assets.
//!
//! The registry records which assets each account has deposited, accrues a
//! whole-epoch reward per staked asset, and settles withdrawals and rewards
//! by emitting outbound-transfer request values (see [`external`]). All state
//! lives in a single [`Contract`] aggregate; the ambient details of the host
//! ledger (caller identity, signer identity, attached payment, current time)
//! are passed in explicitly by the embedding runtime.

use vstd::prelude::*;

pub mod external;
pub mod nft_callbacks;

pub use crate::external::{
    FtTransferRequest, FungibleToken, NftTransferRequest, NonFungibleToken, StakingError,
};

verus! {

use vstd::string::StringExecFns;

/// A ledger account identity, as plain text.
pub type AccountId = String;

/// A non-fungible asset identifier, as plain text.
pub type TokenId = String;

/// A point in time, in whole seconds.
pub type TimestampSec = u64;

/// Nanoseconds per second, for converting host block timestamps.
pub const NANOS_PER_SEC: u64 = 1_000_000_000;

/// The reward token's smallest-unit scale: one whole reward unit is
/// `10^18` base units.
pub const REWARD_SCALE: u128 = 1_000_000_000_000_000_000;

/// One account's staking record: the set of asset ids it has deposited,
/// kept as a duplicate-free list (insertion order is irrelevant).
pub struct UserStake {
    pub account_id: AccountId,
    pub token_ids: Vec<TokenId>,
}

/// One asset's settlement record: the last time (seconds) its accrued
/// reward was paid out, or the time it was staked.
pub struct TokenRecord {
    pub token_id: TokenId,
    pub staked_time: TimestampSec,
}

/// The whole registry state: per-account staked-asset sets, per-asset
/// settlement times, and the global configuration.
pub struct Contract {
    /// The only identity allowed to mutate configuration.
    pub owner_id: AccountId,
    /// Per-account staked-asset sets; an entry exists iff its set is
    /// non-empty, and each account appears at most once.
    pub user_info: Vec<UserStake>,
    /// Per-asset settlement timestamps, keyed uniquely by asset id. An
    /// entry may outlive its asset's staking (it is left behind on
    /// unstake) but is reset whenever the asset is staked.
    pub token_info: Vec<TokenRecord>,
    /// Address of the external asset-transfer service.
    pub nft_contract_id: AccountId,
    /// Address of the external reward-token service.
    pub ft_token_id: AccountId,
    /// Reward units granted per whole elapsed epoch per staked asset.
    pub token_reward: u64,
    /// Epoch length in seconds.
    pub time_epoch: u64,
    /// Count of currently staked assets, over all accounts.
    pub total_staked: u64,
}

// ---------------------------------------------------------------------------
// Specification-level views of the two association lists.
// ---------------------------------------------------------------------------

/// Does entry `e` hold the asset id `t`?
pub open spec fn entry_has_token(e: UserStake, t: Seq<char>) -> bool {
    exists|j: int| 0 <= j < e.token_ids@.len() && e.token_ids@[j]@ == t
}

/// Are the asset ids of entry `e` pairwise distinct?
pub open spec fn entry_tokens_distinct(e: UserStake) -> bool {
    forall|j1: int, j2: int|
        0 <= j1 < j2 < e.token_ids@.len() ==> e.token_ids@[j1]@ != e.token_ids@[j2]@
}

/// Is there a settlement record for asset id `t`?
pub open spec fn time_has(s: Seq<TokenRecord>, t: Seq<char>) -> bool {
    exists|k: int| 0 <= k < s.len() && s[k].token_id@ == t
}

/// The index of the settlement record for `t` (meaningful only under
/// `time_has`).
pub open spec fn time_index_of(s: Seq<TokenRecord>, t: Seq<char>) -> int {
    choose|k: int| 0 <= k < s.len() && s[k].token_id@ == t
}

/// The settlement time recorded for `t`, or `0` if there is none.
pub open spec fn time_get(s: Seq<TokenRecord>, t: Seq<char>) -> u64 {
    if time_has(s, t) {
        s[time_index_of(s, t)].staked_time
    } else {
        0
    }
}

/// Are the settlement-record keys pairwise distinct?
pub open spec fn time_keys_distinct(s: Seq<TokenRecord>) -> bool {
    forall|k1: int, k2: int| 0 <= k1 < k2 < s.len() ==> s[k1].token_id@ != s[k2].token_id@
}

/// The sum of the staked-set sizes over all account entries.
pub open spec fn sum_sizes(s: Seq<UserStake>) -> int
    decreases s.len(),
{
    if s.len() == 0 {
        0
    } else {
        s[0].token_ids@.len() + sum_sizes(s.drop_first())
    }
}

/// Whole epochs elapsed between a settlement time and `now_sec`
/// (meaningful only for `settled <= now_sec` and `epoch > 0`).
pub open spec fn epochs_accrued(now_sec: u64, settled: u64, epoch: u64) -> int {
    ((now_sec - settled) as int) / (epoch as int)
}

impl Contract {
    /// Does some entry record staked assets for account `a`?
    pub open spec fn has_account(self, a: Seq<char>) -> bool {
        exists|i: int|
            0 <= i < self.user_info@.len() && self.user_info@[i].account_id@ == a
    }

    /// The index of account `a`'s entry (meaningful only under
    /// `has_account`).
    pub open spec fn account_index(self, a: Seq<char>) -> int {
        choose|i: int|
            0 <= i < self.user_info@.len() && self.user_info@[i].account_id@ == a
    }

    /// The asset ids staked by account `a`, empty if it has no entry.
    pub open spec fn tokens_of(self, a: Seq<char>) -> Seq<String> {
        if self.has_account(a) {
            self.user_info@[self.account_index(a)].token_ids@
        } else {
            Seq::<String>::empty()
        }
    }

    /// Has account `a` staked asset `t`?
    pub open spec fn holds_token(self, a: Seq<char>, t: Seq<char>) -> bool {
        exists|j: int|
            0 <= j < self.tokens_of(a).len() && self.tokens_of(a)[j]@ == t
    }

    /// Is asset `t` staked by some account other than `a`?
    pub open spec fn staked_by_other(self, a: Seq<char>, t: Seq<char>) -> bool {
        exists|i: int|
            0 <= i < self.user_info@.len() && self.user_info@[i].account_id@ != a
                && entry_has_token(self.user_info@[i], t)
    }

    /// Is there a settlement record for asset `t`?
    pub open spec fn has_time(self, t: Seq<char>) -> bool {
        time_has(self.token_info@, t)
    }

    /// The settlement time of asset `t`, or `0` if it has no record.
    pub open spec fn settlement_time(self, t: Seq<char>) -> u64 {
        time_get(self.token_info@, t)
    }

    /// No two entries are for the same account.
    pub open spec fn accounts_distinct(self) -> bool {
        forall|i1: int, i2: int|
            0 <= i1 < i2 < self.user_info@.len()
                ==> self.user_info@[i1].account_id@ != self.user_info@[i2].account_id@
    }

    /// Every entry's staked set is non-empty (empty entries are deleted).
    pub open spec fn entries_nonempty(self) -> bool {
        forall|i: int|
            0 <= i < self.user_info@.len() ==> self.user_info@[i].token_ids@.len() > 0
    }

    /// Every entry's staked set is duplicate-free.
    pub open spec fn entries_distinct(self) -> bool {
        forall|i: int|
            0 <= i < self.user_info@.len() ==> entry_tokens_distinct(#[trigger] self.user_info@[i])
    }

    /// No asset id appears in two different accounts' sets.
    pub open spec fn entries_disjoint(self) -> bool {
        forall|i1: int, i2: int, t: Seq<char>|
            0 <= i1 < self.user_info@.len() && 0 <= i2 < self.user_info@.len() && i1 != i2
                ==> !(#[trigger] entry_has_token(self.user_info@[i1], t)
                    && #[trigger] entry_has_token(self.user_info@[i2], t))
    }

    /// Every staked asset has a settlement record.
    pub open spec fn staked_have_time(self) -> bool {
        forall|i: int, j: int|
            0 <= i < self.user_info@.len() && 0 <= j < self.user_info@[i].token_ids@.len()
                ==> #[trigger] time_has(self.token_info@, self.user_info@[i].token_ids@[j]@)
    }

    /// Well-formedness of the whole registry state: every constructor
    /// establishes it and every operation preserves it.
    pub open spec fn wf(self) -> bool {
        &&& self.accounts_distinct()
        &&& self.entries_nonempty()
        &&& self.entries_distinct()
        &&& self.entries_disjoint()
        &&& self.staked_have_time()
        &&& time_keys_distinct(self.token_info@)
        &&& self.total_staked == sum_sizes(self.user_info@)
    }

    /// Reward units owed to account `a` at `now_sec`: the reward rate times
    /// the whole epochs accrued over all of `a`'s staked assets
    /// (meaningful only when no settlement time is in the future and the
    /// epoch length is non-zero).
    pub open spec fn sum_epochs(self, toks: Seq<String>, now_sec: u64) -> int
        decreases toks.len(),
    {
        if toks.len() == 0 {
            0
        } else {
            epochs_accrued(now_sec, self.settlement_time(toks[0]@), self.time_epoch)
                + self.sum_epochs(toks.drop_first(), now_sec)
        }
    }

    /// Total reward owed to account `a` at `now_sec`; `0` for an account
    /// with no staked assets.
    pub open spec fn reward_of(self, a: Seq<char>, now_sec: u64) -> int {
        if self.has_account(a) {
            self.token_reward * self.sum_epochs(self.tokens_of(a), now_sec)
        } else {
            0
        }
    }

    /// Does some staked asset of `a` carry a settlement time later than
    /// `now_sec`?
    pub open spec fn any_future_settlement(self, a: Seq<char>, now_sec: u64) -> bool {
        exists|j: int|
            0 <= j < self.tokens_of(a).len()
                && self.settlement_time(self.tokens_of(a)[j]@) > now_sec
    }
}

// ---------------------------------------------------------------------------
// Lemmas about the association-list views.
// ---------------------------------------------------------------------------

/// `sum_sizes` distributes over `push`.
proof fn lemma_sum_sizes_push(s: Seq<UserStake>, e: UserStake)
    ensures
        sum_sizes(s.push(e)) == sum_sizes(s) + e.token_ids@.len(),
    decreases s.len(),
{
    if s.len() == 0 {
        assert(s.push(e).drop_first() =~= Seq::<UserStake>::empty());
        assert(s =~= Seq::<UserStake>::empty());
    } else {
        assert(s.push(e).drop_first() =~= s.drop_first().push(e));
        lemma_sum_sizes_push(s.drop_first(), e);
    }
}

/// `sum_sizes` after replacing the entry at `i`.
proof fn lemma_sum_sizes_update(s: Seq<UserStake>, i: int, e: UserStake)
    requires
        0 <= i < s.len(),
    ensures
        sum_sizes(s.update(i, e)) == sum_sizes(s) - s[i].token_ids@.len() + e.token_ids@.len(),
    decreases s.len(),
{
    if i == 0 {
        assert(s.update(0, e).drop_first() =~= s.drop_first());
    } else {
        assert(s.update(i, e).drop_first() =~= s.drop_first().update(i - 1, e));
        lemma_sum_sizes_update(s.drop_first(), i - 1, e);
    }
}

/// `sum_sizes` after removing the entry at `i`.
proof fn lemma_sum_sizes_remove(s: Seq<UserStake>, i: int)
    requires
        0 <= i < s.len(),
    ensures
        sum_sizes(s.remove(i)) == sum_sizes(s) - s[i].token_ids@.len(),
    decreases s.len(),
{
    if i == 0 {
        assert(s.remove(0) =~= s.drop_first());
    } else {
        assert(s.remove(i).drop_first() =~= s.drop_first().remove(i - 1));
        lemma_sum_sizes_remove(s.drop_first(), i - 1);
    }
}

/// `sum_sizes` is never negative.
proof fn lemma_sum_sizes_nonneg(s: Seq<UserStake>)
    ensures
        sum_sizes(s) >= 0,
    decreases s.len(),
{
    if s.len() != 0 {
        lemma_sum_sizes_nonneg(s.drop_first());
    }
}

/// With distinct accounts, an entry whose account matches `a` is *the*
/// entry `account_index` denotes.
proof fn lemma_account_index_is(c: Contract, a: Seq<char>, i: int)
    requires
        c.accounts_distinct(),
        0 <= i < c.user_info@.len(),
        c.user_info@[i].account_id@ == a,
    ensures
        c.has_account(a),
        c.account_index(a) == i,
        c.tokens_of(a) == c.user_info@[i].token_ids@,
{
    assert(c.has_account(a));
    let k = c.account_index(a);
    assert(0 <= k < c.user_info@.len() && c.user_info@[k].account_id@ == a);
    if k < i {
        assert(c.user_info@[k].account_id@ != c.user_info@[i].account_id@);
    } else if i < k {
        assert(c.user_info@[i].account_id@ != c.user_info@[k].account_id@);
    }
}

/// With distinct keys, a record whose key matches `t` is *the* record
/// `time_index_of` denotes.
proof fn lemma_time_index_is(s: Seq<TokenRecord>, t: Seq<char>, k: int)
    requires
        time_keys_distinct(s),
        0 <= k < s.len(),
        s[k].token_id@ == t,
    ensures
        time_has(s, t),
        time_index_of(s, t) == k,
        time_get(s, t) == s[k].staked_time,
{
    assert(time_has(s, t));
    let k2 = time_index_of(s, t);
    assert(0 <= k2 < s.len() && s[k2].token_id@ == t);
    if k2 < k {
        assert(s[k2].token_id@ != s[k].token_id@);
    } else if k < k2 {
        assert(s[k].token_id@ != s[k2].token_id@);
    }
}

// ---------------------------------------------------------------------------
// Executable search helpers over the two association lists.
// ---------------------------------------------------------------------------

/// Index of account `a`'s entry, if any.
fn find_account_index(v: &Vec<UserStake>, a: &String) -> (r: Option<usize>)
    ensures
        match r {
            Some(i) => i < v@.len() && v@[i as int].account_id@ == a@,
            None => forall|i: int| 0 <= i < v@.len() ==> v@[i].account_id@ != a@,
        },
{
    let mut i: usize = 0;
    while i < v.len()
        invariant
            i <= v@.len(),
            forall|k: int| 0 <= k < i ==> v@[k].account_id@ != a@,
        decreases v@.len() - i,
    {
        if v[i].account_id == *a {
            return Some(i);
        }
        i += 1;
    }
    None
}

/// Index of asset `t` in a staked-asset list, if present.
fn find_token_in_list(tokens: &Vec<String>, t: &String) -> (r: Option<usize>)
    ensures
        match r {
            Some(j) => j < tokens@.len() && tokens@[j as int]@ == t@,
            None => forall|j: int| 0 <= j < tokens@.len() ==> tokens@[j]@ != t@,
        },
{
    let mut j: usize = 0;
    while j < tokens.len()
        invariant
            j <= tokens@.len(),
            forall|k: int| 0 <= k < j ==> tokens@[k]@ != t@,
        decreases tokens@.len() - j,
    {
        if tokens[j] == *t {
            return Some(j);
        }
        j += 1;
    }
    None
}

/// Index of the settlement record for asset `t`, if any.
fn find_time_index(records: &Vec<TokenRecord>, t: &String) -> (r: Option<usize>)
    ensures
        match r {
            Some(k) => k < records@.len() && records@[k as int].token_id@ == t@,
            None => forall|k: int| 0 <= k < records@.len() ==> records@[k].token_id@ != t@,
        },
{
    let mut k: usize = 0;
    while k < records.len()
        invariant
            k <= records@.len(),
            forall|j: int| 0 <= j < k ==> records@[j].token_id@ != t@,
        decreases records@.len() - k,
    {
        if records[k].token_id == *t {
            return Some(k);
        }
        k += 1;
    }
    None
}

/// Index of the entry (of any account) holding asset `t`, if one does.
fn find_token_owner(v: &Vec<UserStake>, t: &String) -> (r: Option<usize>)
    ensures
        match r {
            Some(i) => i < v@.len() && entry_has_token(v@[i as int], t@),
            None => forall|i: int| 0 <= i < v@.len() ==> !entry_has_token(v@[i], t@),
        },
{
    let mut i: usize = 0;
    while i < v.len()
        invariant
            i <= v@.len(),
            forall|k: int| 0 <= k < i ==> !entry_has_token(v@[k], t@),
        decreases v@.len() - i,
    {
        if let Some(j) = find_token_in_list(&v[i].token_ids, t) {
            assert(entry_has_token(v@[i as int], t@));
            return Some(i);
        }
        assert(!entry_has_token(v@[i as int], t@));
        i += 1;
    }
    None
}

/// Set asset `token_id`'s settlement time to `now`, creating the record if
/// it does not exist yet. Every other record is left untouched.
fn upsert_time(records: &mut Vec<TokenRecord>, token_id: String, now: u64)
    requires
        time_keys_distinct(old(records)@),
    ensures
        time_keys_distinct(final(records)@),
        time_has(final(records)@, token_id@),
        time_get(final(records)@, token_id@) == now,
        forall|x: Seq<char>|
            x != token_id@ ==> time_has(final(records)@, x) == time_has(old(records)@, x),
        forall|x: Seq<char>|
            x != token_id@ ==> time_get(final(records)@, x) == time_get(old(records)@, x),
{
    let ghost orig = records@;
    match find_time_index(records, &token_id) {
        Some(k) => {
            records[k] = (TokenRecord { token_id, staked_time: now });
            proof {
                let s = records@;
                assert forall|k1: int, k2: int| 0 <= k1 < k2 < s.len() implies s[k1].token_id@
                    != s[k2].token_id@ by {
                    assert(orig[k1].token_id@ != orig[k2].token_id@);
                }
                lemma_time_index_is(s, s[k as int].token_id@, k as int);
                assert forall|x: Seq<char>| x != s[k as int].token_id@ implies time_has(s, x)
                    == time_has(orig, x) && time_get(s, x) == time_get(orig, x) by {
                    if time_has(orig, x) {
                        let w = time_index_of(orig, x);
                        assert(0 <= w < orig.len() && orig[w].token_id@ == x);
                        assert(w != k);
                        assert(s[w].token_id@ == x);
                        lemma_time_index_is(s, x, w);
                        lemma_time_index_is(orig, x, w);
                    } else {
                        if time_has(s, x) {
                            let w = time_index_of(s, x);
                            assert(0 <= w < s.len() && s[w].token_id@ == x);
                            assert(w != k);
                            assert(orig[w].token_id@ == x);
                            assert(time_has(orig, x));
                        }
                    }
                }
            }
        },
        None => {
            let ghost key = token_id@;
            records.push(TokenRecord { token_id, staked_time: now });
            proof {
                let s = records@;
                assert(s == orig.push(s[s.len() - 1]));
                assert forall|k1: int, k2: int| 0 <= k1 < k2 < s.len() implies s[k1].token_id@
                    != s[k2].token_id@ by {
                    if k2 < s.len() - 1 {
                        assert(orig[k1].token_id@ != orig[k2].token_id@);
                    } else {
                        assert(s[k2].token_id@ == key);
                        assert(orig[k1].token_id@ != key);
                    }
                }
                lemma_time_index_is(s, key, s.len() - 1);
                assert forall|x: Seq<char>| x != key implies time_has(s, x) == time_has(orig, x)
                    && time_get(s, x) == time_get(orig, x) by {
                    if time_has(orig, x) {
                        let w = time_index_of(orig, x);
                        assert(0 <= w < orig.len() && orig[w].token_id@ == x);
                        assert(s[w].token_id@ == x);
                        lemma_time_index_is(s, x, w);
                        lemma_time_index_is(orig, x, w);
                    } else {
                        if time_has(s, x) {
                            let w = time_index_of(s, x);
                            assert(0 <= w < s.len() && s[w].token_id@ == x);
                            assert(w != s.len() - 1);
                            assert(orig[w].token_id@ == x);
                            assert(time_has(orig, x));
                        }
                    }
                }
            }
        },
    }
}

/// What a successful stake of asset `t` for account `a` at `now_sec` does
/// to the registry: `t` joins `a`'s set (a no-op if already present — set
/// semantics), `t`'s settlement clock is reset to `now_sec`, the global
/// counter grows by one exactly when the set grew, and nothing else moves.
pub open spec fn stake_applied(
    pre: Contract,
    post: Contract,
    a: Seq<char>,
    t: Seq<char>,
    now_sec: u64,
) -> bool {
    &&& post.wf()
    &&& post.owner_id == pre.owner_id
    &&& post.nft_contract_id == pre.nft_contract_id
    &&& post.ft_token_id == pre.ft_token_id
    &&& post.token_reward == pre.token_reward
    &&& post.time_epoch == pre.time_epoch
    &&& post.has_account(a)
    &&& forall|b: Seq<char>| b != a ==> post.has_account(b) == pre.has_account(b)
    &&& post.holds_token(a, t)
    &&& forall|x: Seq<char>| x != t ==> post.holds_token(a, x) == pre.holds_token(a, x)
    &&& forall|b: Seq<char>, x: Seq<char>| b != a ==> post.holds_token(b, x) == pre.holds_token(
        b,
        x,
    )
    &&& post.has_time(t)
    &&& post.settlement_time(t) == now_sec
    &&& forall|x: Seq<char>| x != t ==> post.has_time(x) == pre.has_time(x)
    &&& forall|x: Seq<char>| x != t ==> post.settlement_time(x) == pre.settlement_time(x)
    &&& post.total_staked == pre.total_staked + (if pre.holds_token(a, t) {
        0int
    } else {
        1int
    })
}

/// Two states with the same account entries agree on every account-side
/// view.
proof fn lemma_same_users(pre: Contract, post: Contract)
    requires
        pre.accounts_distinct(),
        post.user_info@ == pre.user_info@,
    ensures
        post.accounts_distinct(),
        forall|b: Seq<char>| post.has_account(b) == pre.has_account(b),
        forall|b: Seq<char>| post.tokens_of(b) == pre.tokens_of(b),
        forall|b: Seq<char>, x: Seq<char>| post.holds_token(b, x) == pre.holds_token(b, x),
{
    assert forall|b: Seq<char>| post.has_account(b) == pre.has_account(b) && post.tokens_of(b)
        == pre.tokens_of(b) by {
        if pre.has_account(b) {
            let w = choose|w: int|
                0 <= w < pre.user_info@.len() && pre.user_info@[w].account_id@ == b;
            assert(post.user_info@[w].account_id@ == b);
            lemma_account_index_is(pre, b, w);
            lemma_account_index_is(post, b, w);
        } else {
            if post.has_account(b) {
                let w = choose|w: int|
                    0 <= w < post.user_info@.len() && post.user_info@[w].account_id@ == b;
                assert(pre.user_info@[w].account_id@ == b);
            }
        }
    }
    assert forall|b: Seq<char>, x: Seq<char>| post.holds_token(b, x) == pre.holds_token(b, x) by {
        assert(post.tokens_of(b) == pre.tokens_of(b));
        if pre.holds_token(b, x) {
            let j = choose|j: int|
                0 <= j < pre.tokens_of(b).len() && pre.tokens_of(b)[j]@ == x;
            assert(post.tokens_of(b)[j]@ == x);
        }
        if post.holds_token(b, x) {
            let j = choose|j: int|
                0 <= j < post.tokens_of(b).len() && post.tokens_of(b)[j]@ == x;
            assert(pre.tokens_of(b)[j]@ == x);
        }
    }
}

/// Account `a`'s held-asset predicate is its entry's membership
/// predicate.
proof fn lemma_holds_is_entry_has(c: Contract, a: Seq<char>, i: int)
    requires
        c.accounts_distinct(),
        0 <= i < c.user_info@.len(),
        c.user_info@[i].account_id@ == a,
    ensures
        forall|x: Seq<char>| c.holds_token(a, x) == entry_has_token(c.user_info@[i], x),
{
    lemma_account_index_is(c, a, i);
    assert forall|x: Seq<char>| c.holds_token(a, x) == entry_has_token(c.user_info@[i], x) by {
        assert(c.tokens_of(a) == c.user_info@[i].token_ids@);
        if c.holds_token(a, x) {
            let j = choose|j: int| 0 <= j < c.tokens_of(a).len() && c.tokens_of(a)[j]@ == x;
            assert(c.user_info@[i].token_ids@[j]@ == x);
        }
        if entry_has_token(c.user_info@[i], x) {
            let j = choose|j: int|
                0 <= j < c.user_info@[i].token_ids@.len() && c.user_info@[i].token_ids@[j]@ == x;
            assert(c.tokens_of(a)[j]@ == x);
        }
    }
}

/// What a successful (reward-paying) claim by account `a` at `now_sec`
/// does to the registry: every staked asset of `a` has its settlement
/// clock reset to `now_sec`, and nothing else moves.
pub open spec fn claim_applied(pre: Contract, post: Contract, a: Seq<char>, now_sec: u64) -> bool {
    &&& post.wf()
    &&& post.owner_id == pre.owner_id
    &&& post.user_info == pre.user_info
    &&& post.nft_contract_id == pre.nft_contract_id
    &&& post.ft_token_id == pre.ft_token_id
    &&& post.token_reward == pre.token_reward
    &&& post.time_epoch == pre.time_epoch
    &&& post.total_staked == pre.total_staked
    &&& forall|x: Seq<char>| post.has_time(x) == pre.has_time(x)
    &&& forall|x: Seq<char>| post.settlement_time(x) == (if pre.holds_token(a, x) {
        now_sec
    } else {
        pre.settlement_time(x)
    })
}

/// Is `x` the id of one of the first `j` assets in `toks`?
spec fn in_prefix(toks: Seq<String>, j: int, x: Seq<char>) -> bool {
    exists|k: int| 0 <= k < j && toks[k]@ == x
}

/// What a successful unstake of asset `t` by account `a` does to the
/// registry: `t` leaves `a`'s set, the entry disappears if that emptied
/// it, the global counter drops by one, and the settlement records are
/// left as they are (a record may thus outlive its asset's staking).
pub open spec fn unstake_applied(pre: Contract, post: Contract, a: Seq<char>, t: Seq<char>) -> bool {
    &&& post.wf()
    &&& post.owner_id == pre.owner_id
    &&& post.nft_contract_id == pre.nft_contract_id
    &&& post.ft_token_id == pre.ft_token_id
    &&& post.token_reward == pre.token_reward
    &&& post.time_epoch == pre.time_epoch
    &&& post.token_info == pre.token_info
    &&& !post.holds_token(a, t)
    &&& forall|x: Seq<char>| x != t ==> post.holds_token(a, x) == pre.holds_token(a, x)
    &&& forall|b: Seq<char>, x: Seq<char>| b != a ==> post.holds_token(b, x) == pre.holds_token(
        b,
        x,
    )
    &&& post.has_account(a) == (pre.tokens_of(a).len() > 1)
    &&& forall|b: Seq<char>| b != a ==> post.has_account(b) == pre.has_account(b)
    &&& post.total_staked == pre.total_staked - 1
}

/// Replacing account `a`'s entry (same account, possibly different asset
/// list) leaves every account's existence, and every *other* account's
/// asset list, untouched.
proof fn lemma_update_entry_effects(pre: Contract, post: Contract, i: int, a: Seq<char>)
    requires
        pre.accounts_distinct(),
        0 <= i < pre.user_info@.len(),
        pre.user_info@[i].account_id@ == a,
        post.user_info@ == pre.user_info@.update(i, post.user_info@[i]),
        post.user_info@[i].account_id@ == a,
    ensures
        post.accounts_distinct(),
        forall|b: Seq<char>| post.has_account(b) == pre.has_account(b),
        post.has_account(a),
        post.account_index(a) == i,
        post.tokens_of(a) == post.user_info@[i].token_ids@,
        forall|b: Seq<char>| b != a ==> post.tokens_of(b) == pre.tokens_of(b),
        forall|b: Seq<char>, x: Seq<char>| b != a ==> post.holds_token(b, x) == pre.holds_token(
            b,
            x,
        ),
{
    assert(post.user_info@.len() == pre.user_info@.len());
    assert(forall|k: int|
        0 <= k < post.user_info@.len() ==> post.user_info@[k].account_id@
            == pre.user_info@[k].account_id@);
    assert forall|b: Seq<char>| post.has_account(b) == pre.has_account(b) by {
        if pre.has_account(b) {
            let w = choose|w: int|
                0 <= w < pre.user_info@.len() && pre.user_info@[w].account_id@ == b;
            assert(post.user_info@[w].account_id@ == b);
        }
        if post.has_account(b) {
            let w = choose|w: int|
                0 <= w < post.user_info@.len() && post.user_info@[w].account_id@ == b;
            assert(pre.user_info@[w].account_id@ == b);
        }
    }
    lemma_account_index_is(post, a, i);
    assert forall|b: Seq<char>| b != a implies post.tokens_of(b) == pre.tokens_of(b) by {
        if pre.has_account(b) {
            let w = choose|w: int|
                0 <= w < pre.user_info@.len() && pre.user_info@[w].account_id@ == b;
            assert(w != i);
            lemma_account_index_is(pre, b, w);
            lemma_account_index_is(post, b, w);
            assert(post.user_info@[w] == pre.user_info@[w]);
        } else {
            assert(!post.has_account(b));
        }
    }
}

/// Appending a fresh account's entry leaves every existing account's
/// existence and asset list untouched.
proof fn lemma_push_entry_effects(pre: Contract, post: Contract, a: Seq<char>)
    requires
        pre.accounts_distinct(),
        !pre.has_account(a),
        post.user_info@ == pre.user_info@.push(post.user_info@[pre.user_info@.len() as int]),
        post.user_info@[pre.user_info@.len() as int].account_id@ == a,
    ensures
        post.accounts_distinct(),
        post.has_account(a),
        post.account_index(a) == pre.user_info@.len(),
        post.tokens_of(a) == post.user_info@[pre.user_info@.len() as int].token_ids@,
        forall|b: Seq<char>| b != a ==> post.has_account(b) == pre.has_account(b),
        forall|b: Seq<char>| b != a ==> post.tokens_of(b) == pre.tokens_of(b),
        forall|b: Seq<char>, x: Seq<char>| b != a ==> post.holds_token(b, x) == pre.holds_token(
            b,
            x,
        ),
{
    let n = pre.user_info@.len() as int;
    assert(post.user_info@.len() == n + 1);
    assert forall|k1: int, k2: int| 0 <= k1 < k2 < post.user_info@.len() implies post.user_info@[
        k1
    ].account_id@ != post.user_info@[k2].account_id@ by {
        if k2 < n {
            assert(pre.user_info@[k1].account_id@ != pre.user_info@[k2].account_id@);
        } else {
            assert(pre.user_info@[k1].account_id@ != a);
        }
    }
    lemma_account_index_is(post, a, n);
    assert forall|b: Seq<char>| b != a implies post.has_account(b) == pre.has_account(b)
        && post.tokens_of(b) == pre.tokens_of(b) by {
        if pre.has_account(b) {
            let w = choose|w: int|
                0 <= w < pre.user_info@.len() && pre.user_info@[w].account_id@ == b;
            assert(post.user_info@[w].account_id@ == b);
            lemma_account_index_is(pre, b, w);
            lemma_account_index_is(post, b, w);
        } else {
            if post.has_account(b) {
                let w = choose|w: int|
                    0 <= w < post.user_info@.len() && post.user_info@[w].account_id@ == b;
                assert(w != n);
                assert(pre.user_info@[w].account_id@ == b);
            }
        }
    }
}

/// Removing account `a`'s entry leaves every other account's existence and
/// asset list untouched, and `a` is gone.
proof fn lemma_remove_entry_effects(pre: Contract, post: Contract, i: int)
    requires
        pre.accounts_distinct(),
        0 <= i < pre.user_info@.len(),
        post.user_info@ == pre.user_info@.remove(i),
    ensures
        post.accounts_distinct(),
        !post.has_account(pre.user_info@[i].account_id@),
        forall|b: Seq<char>|
            b != pre.user_info@[i].account_id@ ==> post.has_account(b) == pre.has_account(b),
        forall|b: Seq<char>|
            b != pre.user_info@[i].account_id@ ==> post.tokens_of(b) == pre.tokens_of(b),
        forall|b: Seq<char>, x: Seq<char>|
            b != pre.user_info@[i].account_id@ ==> post.holds_token(b, x) == pre.holds_token(b, x),
{
    let a = pre.user_info@[i].account_id@;
    assert(post.user_info@.len() == pre.user_info@.len() - 1);
    assert forall|k: int| 0 <= k < post.user_info@.len() implies post.user_info@[k]
        == pre.user_info@[if k < i {
        k
    } else {
        k + 1
    }] by {}
    assert forall|k1: int, k2: int| 0 <= k1 < k2 < post.user_info@.len() implies post.user_info@[
        k1
    ].account_id@ != post.user_info@[k2].account_id@ by {
        let m1: int = if k1 < i {
            k1
        } else {
            k1 + 1
        };
        let m2: int = if k2 < i {
            k2
        } else {
            k2 + 1
        };
        assert(pre.user_info@[m1].account_id@ != pre.user_info@[m2].account_id@);
    }
    assert forall|k: int| 0 <= k < post.user_info@.len() implies post.user_info@[k].account_id@
        != a by {
        let m: int = if k < i {
            k
        } else {
            k + 1
        };
        assert(m != i);
        if m < i {
            assert(pre.user_info@[m].account_id@ != pre.user_info@[i].account_id@);
        } else {
            assert(pre.user_info@[i].account_id@ != pre.user_info@[m].account_id@);
        }
    }
    assert forall|b: Seq<char>| b != a implies post.has_account(b) == pre.has_account(b)
        && post.tokens_of(b) == pre.tokens_of(b) by {
        if pre.has_account(b) {
            let w = choose|w: int|
                0 <= w < pre.user_info@.len() && pre.user_info@[w].account_id@ == b;
            assert(w != i);
            let w2: int = if w < i {
                w
            } else {
                w - 1
            };
            assert(post.user_info@[w2] == pre.user_info@[w]);
            lemma_account_index_is(pre, b, w);
            lemma_account_index_is(post, b, w2);
        } else {
            if post.has_account(b) {
                let w = choose|w: int|
                    0 <= w < post.user_info@.len() && post.user_info@[w].account_id@ == b;
                let m: int = if w < i {
                    w
                } else {
                    w + 1
                };
                assert(pre.user_info@[m].account_id@ == b);
            }
        }
    }
}

/// Element-wise copy of a staked-asset list.
fn clone_string_vec(v: &Vec<String>) -> (r: Vec<String>)
    ensures
        r@ == v@,
{
    let mut r: Vec<String> = Vec::new();
    let mut j: usize = 0;
    while j < v.len()
        invariant
            j <= v@.len(),
            r@.len() == j,
            forall|k: int| 0 <= k < j ==> r@[k] == v@[k],
        decreases v@.len() - j,
    {
        r.push(v[j].clone());
        j += 1;
    }
    proof {
        assert(r@ =~= v@);
    }
    r
}

/// `sum_epochs` distributes over `push`.
proof fn lemma_sum_epochs_push(c: Contract, toks: Seq<String>, x: String, now_sec: u64)
    ensures
        c.sum_epochs(toks.push(x), now_sec) == c.sum_epochs(toks, now_sec) + epochs_accrued(
            now_sec,
            c.settlement_time(x@),
            c.time_epoch,
        ),
    decreases toks.len(),
{
    if toks.len() == 0 {
        assert(toks.push(x).drop_first() =~= Seq::<String>::empty());
        assert(toks =~= Seq::<String>::empty());
    } else {
        assert(toks.push(x).drop_first() =~= toks.drop_first().push(x));
        lemma_sum_epochs_push(c, toks.drop_first(), x, now_sec);
    }
}

// ---------------------------------------------------------------------------
// The registry itself.
// ---------------------------------------------------------------------------

impl Contract {
    /// One-time setup of a fresh registry owned by `owner_id`, with the
    /// default service addresses, reward rate `3` and a one-week epoch.
    pub fn new(owner_id: AccountId) -> (c: Contract)
        ensures
            c.wf(),
            c.owner_id@ == owner_id@,
            c.user_info@.len() == 0,
            c.token_info@.len() == 0,
            c.nft_contract_id@ == "kaizofighters.tenk.near"@,
            c.ft_token_id@ == "dojo.near"@,
            c.token_reward == 3,
            c.time_epoch == 604800,
            c.total_staked == 0,
    {
        Contract {
            owner_id,
            user_info: Vec::new(),
            token_info: Vec::new(),
            nft_contract_id: String::from_str("kaizofighters.tenk.near"),
            ft_token_id: String::from_str("dojo.near"),
            token_reward: 3,
            time_epoch: 604800,
            total_staked: 0,
        }
    }

    /// Owner-only: point the registry at another asset-transfer service.
    pub fn set_nft_contract(&mut self, caller: &AccountId, contract_id: AccountId) -> (r: Result<
        (),
        StakingError,
    >)
        ensures
            caller@ == old(self).owner_id@ ==> r is Ok && *final(self) == (Contract {
                nft_contract_id: contract_id,
                ..*old(self)
            }),
            caller@ != old(self).owner_id@ ==> r == Err::<(), StakingError>(
                StakingError::Forbidden,
            ) && *final(self) == *old(self),
    {
        if !(*caller == self.owner_id) {
            return Err(StakingError::Forbidden);
        }
        self.nft_contract_id = contract_id;
        Ok(())
    }

    /// Owner-only: point the registry at another reward-token service.
    pub fn set_ft_contract(&mut self, caller: &AccountId, contract_id: AccountId) -> (r: Result<
        (),
        StakingError,
    >)
        ensures
            caller@ == old(self).owner_id@ ==> r is Ok && *final(self) == (Contract {
                ft_token_id: contract_id,
                ..*old(self)
            }),
            caller@ != old(self).owner_id@ ==> r == Err::<(), StakingError>(
                StakingError::Forbidden,
            ) && *final(self) == *old(self),
    {
        if !(*caller == self.owner_id) {
            return Err(StakingError::Forbidden);
        }
        self.ft_token_id = contract_id;
        Ok(())
    }

    /// Owner-only: hand the registry to a new owner.
    pub fn set_owner(&mut self, caller: &AccountId, owner_id: AccountId) -> (r: Result<
        (),
        StakingError,
    >)
        ensures
            caller@ == old(self).owner_id@ ==> r is Ok && *final(self) == (Contract {
                owner_id,
                ..*old(self)
            }),
            caller@ != old(self).owner_id@ ==> r == Err::<(), StakingError>(
                StakingError::Forbidden,
            ) && *final(self) == *old(self),
    {
        if !(*caller == self.owner_id) {
            return Err(StakingError::Forbidden);
        }
        self.owner_id = owner_id;
        Ok(())
    }

    /// Owner-only: set the epoch length in seconds. A zero length is
    /// accepted here; reward accrual then rejects with `DivisionByZero`.
    pub fn set_time_epoch(&mut self, caller: &AccountId, period: u64) -> (r: Result<
        (),
        StakingError,
    >)
        ensures
            caller@ == old(self).owner_id@ ==> r is Ok && *final(self) == (Contract {
                time_epoch: period,
                ..*old(self)
            }),
            caller@ != old(self).owner_id@ ==> r == Err::<(), StakingError>(
                StakingError::Forbidden,
            ) && *final(self) == *old(self),
    {
        if !(*caller == self.owner_id) {
            return Err(StakingError::Forbidden);
        }
        self.time_epoch = period;
        Ok(())
    }

    /// Owner-only: set the per-epoch per-asset reward rate.
    pub fn set_token_reward(&mut self, caller: &AccountId, amount: u64) -> (r: Result<
        (),
        StakingError,
    >)
        ensures
            caller@ == old(self).owner_id@ ==> r is Ok && *final(self) == (Contract {
                token_reward: amount,
                ..*old(self)
            }),
            caller@ != old(self).owner_id@ ==> r == Err::<(), StakingError>(
                StakingError::Forbidden,
            ) && *final(self) == *old(self),
    {
        if !(*caller == self.owner_id) {
            return Err(StakingError::Forbidden);
        }
        self.token_reward = amount;
        Ok(())
    }

    /// The number of currently staked assets, over all accounts.
    pub fn get_status(&self) -> (r: u64)
        ensures
            r == self.total_staked,
    {
        self.total_staked
    }

    /// Convert a host block timestamp (nanoseconds) to whole seconds.
    pub fn to_sec(timestamp: u64) -> (r: TimestampSec)
        ensures
            r == timestamp / NANOS_PER_SEC,
    {
        timestamp / NANOS_PER_SEC
    }

    /// The asset ids staked by `account_id`, in insertion order; the empty
    /// list if the account has no entry.
    pub fn get_amount_by_owner(&self, account_id: AccountId) -> (r: Vec<TokenId>)
        requires
            self.wf(),
        ensures
            r@ == self.tokens_of(account_id@),
    {
        match find_account_index(&self.user_info, &account_id) {
            Some(i) => {
                proof {
                    lemma_account_index_is(*self, account_id@, i as int);
                }
                clone_string_vec(&self.user_info[i].token_ids)
            },
            None => {
                proof {
                    assert(!self.has_account(account_id@));
                    assert(Seq::<String>::empty() =~= self.tokens_of(account_id@));
                }
                Vec::new()
            },
        }
    }

    /// The settlement time of each listed asset id, in input order, with
    /// `0` for an id that has no settlement record.
    pub fn get_staked_time(&self, token_ids: Vec<TokenId>) -> (r: Vec<TimestampSec>)
        requires
            self.wf(),
        ensures
            r@.len() == token_ids@.len(),
            forall|k: int|
                0 <= k < token_ids@.len() ==> r@[k] == self.settlement_time(token_ids@[k]@),
    {
        let mut r: Vec<u64> = Vec::new();
        let mut idx: usize = 0;
        while idx < token_ids.len()
            invariant
                self.wf(),
                idx <= token_ids@.len(),
                r@.len() == idx,
                forall|k: int| 0 <= k < idx ==> r@[k] == self.settlement_time(token_ids@[k]@),
            decreases token_ids@.len() - idx,
        {
            let t: u64 = match find_time_index(&self.token_info, &token_ids[idx]) {
                Some(k) => {
                    proof {
                        lemma_time_index_is(self.token_info@, token_ids@[idx as int]@, k as int);
                    }
                    self.token_info[k].staked_time
                },
                None => {
                    proof {
                        assert(!time_has(self.token_info@, token_ids@[idx as int]@));
                    }
                    0
                },
            };
            r.push(t);
            idx += 1;
        }
        r
    }

    /// The reward currently owed to `from`: the reward rate times the
    /// whole epochs accrued by each of its staked assets. Read-only.
    /// Returns `0` for an account with nothing staked, and rejects a zero
    /// epoch length, a settlement time in the future, and a reward that
    /// does not fit `u64`.
    pub fn get_reward(&self, from: AccountId, now_sec: u64) -> (r: Result<u64, StakingError>)
        requires
            self.wf(),
        ensures
            !self.has_account(from@) ==> r == Ok::<u64, StakingError>(0),
            self.has_account(from@) && self.time_epoch == 0 ==> r == Err::<u64, StakingError>(
                StakingError::DivisionByZero,
            ),
            self.has_account(from@) && self.time_epoch > 0 && self.any_future_settlement(
                from@,
                now_sec,
            ) ==> r == Err::<u64, StakingError>(StakingError::ArithmeticUnderflow),
            self.has_account(from@) && self.time_epoch > 0 && !self.any_future_settlement(
                from@,
                now_sec,
            ) ==> self.reward_of(from@, now_sec) >= 0 && (if self.reward_of(from@, now_sec)
                <= u64::MAX {
                r == Ok::<u64, StakingError>(self.reward_of(from@, now_sec) as u64)
            } else {
                r == Err::<u64, StakingError>(StakingError::ArithmeticOverflow)
            }),
    {
        let i = match find_account_index(&self.user_info, &from) {
            Some(i) => i,
            None => {
                return Ok(0);
            },
        };
        proof {
            lemma_account_index_is(*self, from@, i as int);
        }
        if self.time_epoch == 0 {
            return Err(StakingError::DivisionByZero);
        }
        let ghost toks = self.tokens_of(from@);
        let n = self.user_info[i].token_ids.len();
        let mut acc: u128 = 0;
        let mut j: usize = 0;
        while j < n
            invariant
                self.wf(),
                self.time_epoch > 0,
                i < self.user_info@.len(),
                self.user_info@[i as int].account_id@ == from@,
                self.has_account(from@),
                self.account_index(from@) == i as int,
                toks == self.tokens_of(from@),
                n == toks.len(),
                j <= n,
                forall|k: int| 0 <= k < j ==> self.settlement_time(toks[k]@) <= now_sec,
                acc as int == self.sum_epochs(toks.take(j as int), now_sec),
                acc as int <= (j as int) * (u64::MAX as int),
            decreases n - j,
        {
            let tok = &self.user_info[i].token_ids[j];
            let k = match find_time_index(&self.token_info, tok) {
                Some(k) => k,
                None => {
                    proof {
                        assert(time_has(self.token_info@, toks[j as int]@));
                        assert(false);
                    }
                    return Err(StakingError::ArithmeticUnderflow);
                },
            };
            proof {
                lemma_time_index_is(self.token_info@, toks[j as int]@, k as int);
            }
            let settled = self.token_info[k].staked_time;
            if settled > now_sec {
                proof {
                    assert(self.any_future_settlement(from@, now_sec));
                }
                return Err(StakingError::ArithmeticUnderflow);
            }
            let e: u64 = (now_sec - settled) / self.time_epoch;
            proof {
                assert(toks.take(j as int + 1) =~= toks.take(j as int).push(toks[j as int]));
                lemma_sum_epochs_push(*self, toks.take(j as int), toks[j as int], now_sec);
                assert((acc as int) + (e as int) <= ((j as int) + 1) * (u64::MAX as int));
                assert(((j as int) + 1) * (u64::MAX as int) <= (u64::MAX as int) * (
                u64::MAX as int)) by (nonlinear_arith)
                    requires
                        0 <= j as int,
                        (j as int) + 1 <= u64::MAX as int,
                ;
            }
            acc = acc + (e as u128);
            j += 1;
        }
        proof {
            assert(toks.take(n as int) =~= toks);
            assert(!self.any_future_settlement(from@, now_sec));
        }
        match (self.token_reward as u128).checked_mul(acc) {
            None => {
                proof {
                    assert(self.reward_of(from@, now_sec) > u64::MAX);
                }
                Err(StakingError::ArithmeticOverflow)
            },
            Some(p) => {
                if p > u64::MAX as u128 {
                    Err(StakingError::ArithmeticOverflow)
                } else {
                    Ok(p as u64)
                }
            },
        }
    }

    /// Record that `account_id` has deposited asset `token_id` at
    /// `now_sec`. Re-staking an asset the account already holds only
    /// resets its settlement clock (set semantics); an asset currently
    /// staked by a *different* account is rejected. Mutates only the
    /// ledger state; the outbound leg of a deposit is the incoming
    /// notification handled by the receipt gateway.
    pub fn stake(&mut self, account_id: AccountId, token_id: TokenId, now_sec: u64) -> (r: Result<
        (),
        StakingError,
    >)
        requires
            old(self).wf(),
            old(self).total_staked < u64::MAX,
        ensures
            old(self).staked_by_other(account_id@, token_id@) ==> r == Err::<(), StakingError>(
                StakingError::Unauthorized,
            ) && *final(self) == *old(self),
            !old(self).staked_by_other(account_id@, token_id@) ==> r is Ok && stake_applied(
                *old(self),
                *final(self),
                account_id@,
                token_id@,
                now_sec,
            ),
    {
        let ghost pre = *self;
        let ghost a = account_id@;
        let ghost t = token_id@;
        match find_token_owner(&self.user_info, &token_id) {
            Some(oi) => {
                if !(self.user_info[oi].account_id == account_id) {
                    proof {
                        assert(pre.staked_by_other(a, t));
                    }
                    return Err(StakingError::Unauthorized);
                }
                // Already staked by this very account: the set is
                // unchanged, only the settlement clock resets.
                proof {
                    assert(!pre.staked_by_other(a, t)) by {
                        if pre.staked_by_other(a, t) {
                            let w = choose|w: int|
                                0 <= w < pre.user_info@.len() && pre.user_info@[w].account_id@ != a
                                    && entry_has_token(pre.user_info@[w], t);
                            assert(w != oi as int);
                            assert(entry_has_token(pre.user_info@[w], t) && entry_has_token(
                                pre.user_info@[oi as int],
                                t,
                            ));
                        }
                    }
                    lemma_account_index_is(pre, a, oi as int);
                    assert(pre.holds_token(a, t));
                }
                upsert_time(&mut self.token_info, token_id, now_sec);
                proof {
                    let post = *self;
                    assert(post.user_info@ == pre.user_info@);
                    lemma_same_users(pre, post);
                    assert forall|i2: int, j2: int|
                        0 <= i2 < post.user_info@.len() && 0 <= j2 < post.user_info@[
                            i2
                        ].token_ids@.len() implies #[trigger] time_has(
                        post.token_info@,
                        post.user_info@[i2].token_ids@[j2]@,
                    ) by {
                        let x = pre.user_info@[i2].token_ids@[j2]@;
                        assert(time_has(pre.token_info@, x));
                        if x != t {
                            assert(time_has(post.token_info@, x) == time_has(pre.token_info@, x));
                        }
                    }
                    assert(post.total_staked == sum_sizes(post.user_info@));
                    assert(post.wf());
                    assert(stake_applied(pre, post, a, t, now_sec));
                }
                Ok(())
            },
            None => {
                proof {
                    assert(!pre.staked_by_other(a, t)) by {
                        if pre.staked_by_other(a, t) {
                            let w = choose|w: int|
                                0 <= w < pre.user_info@.len() && pre.user_info@[w].account_id@ != a
                                    && entry_has_token(pre.user_info@[w], t);
                            assert(!entry_has_token(pre.user_info@[w], t));
                        }
                    }
                }
                match find_account_index(&self.user_info, &account_id) {
                    Some(i) => {
                        proof {
                            lemma_account_index_is(pre, a, i as int);
                            assert(!entry_has_token(pre.user_info@[i as int], t));
                            assert(!pre.holds_token(a, t));
                        }
                        let mut toks = clone_string_vec(&self.user_info[i].token_ids);
                        toks.push(token_id.clone());
                        let acct = self.user_info[i].account_id.clone();
                        self.user_info[i] = (UserStake { account_id: acct, token_ids: toks });
                        upsert_time(&mut self.token_info, token_id, now_sec);
                        self.total_staked = self.total_staked + 1;
                        proof {
                            let post = *self;
                            let e2 = post.user_info@[i as int];
                            assert(e2.account_id@ == a);
                            assert(e2.token_ids@ == pre.user_info@[i as int].token_ids@.push(
                                token_id,
                            ));
                            assert(post.user_info@ == pre.user_info@.update(i as int, e2));
                            lemma_update_entry_effects(pre, post, i as int, a);
                            lemma_holds_is_entry_has(pre, a, i as int);
                            lemma_holds_is_entry_has(post, a, i as int);
                            // the grown entry: membership is old-or-t
                            assert forall|x: Seq<char>|
                                entry_has_token(e2, x) == (entry_has_token(
                                    pre.user_info@[i as int],
                                    x,
                                ) || x == t) by {
                                let e1 = pre.user_info@[i as int];
                                if entry_has_token(e1, x) {
                                    let j = choose|j: int|
                                        0 <= j < e1.token_ids@.len() && e1.token_ids@[j]@ == x;
                                    assert(e2.token_ids@[j]@ == x);
                                    assert(entry_has_token(e2, x));
                                }
                                if x == t {
                                    assert(e2.token_ids@[e1.token_ids@.len() as int]@ == x);
                                    assert(entry_has_token(e2, x));
                                }
                                if entry_has_token(e2, x) {
                                    let j = choose|j: int|
                                        0 <= j < e2.token_ids@.len() && e2.token_ids@[j]@ == x;
                                    if j < e1.token_ids@.len() {
                                        assert(entry_has_token(e1, x));
                                    } else {
                                        assert(x == t);
                                    }
                                }
                            }
                            // well-formedness piece by piece
                            assert(entry_tokens_distinct(e2)) by {
                                let e1 = pre.user_info@[i as int];
                                assert forall|j1: int, j2: int|
                                    0 <= j1 < j2 < e2.token_ids@.len() implies e2.token_ids@[j1]@
                                    != e2.token_ids@[j2]@ by {
                                    if j2 < e1.token_ids@.len() {
                                        assert(entry_tokens_distinct(e1));
                                    } else {
                                        assert(e2.token_ids@[j2]@ == t);
                                        assert(e1.token_ids@[j1]@ != t) by {
                                            if e1.token_ids@[j1]@ == t {
                                                assert(entry_has_token(e1, t));
                                            }
                                        }
                                    }
                                }
                            }
                            assert(post.entries_distinct()) by {
                                assert forall|k: int|
                                    0 <= k < post.user_info@.len() implies entry_tokens_distinct(
                                    #[trigger] post.user_info@[k],
                                ) by {
                                    if k != i as int {
                                        assert(post.user_info@[k] == pre.user_info@[k]);
                                        assert(entry_tokens_distinct(pre.user_info@[k]));
                                    }
                                }
                            }
                            assert(post.entries_disjoint()) by {
                                assert forall|k1: int, k2: int, x: Seq<char>|
                                    0 <= k1 < post.user_info@.len() && 0 <= k2
                                        < post.user_info@.len() && k1 != k2 implies !(
                                #[trigger] entry_has_token(post.user_info@[k1], x)
                                    && #[trigger] entry_has_token(post.user_info@[k2], x)) by {
                                    if entry_has_token(post.user_info@[k1], x) && entry_has_token(
                                        post.user_info@[k2],
                                        x,
                                    ) {
                                        if k1 != i as int && k2 != i as int {
                                            assert(entry_has_token(pre.user_info@[k1], x)
                                                && entry_has_token(pre.user_info@[k2], x));
                                        } else {
                                            let ko: int = if k1 == i as int {
                                                k2
                                            } else {
                                                k1
                                            };
                                            assert(entry_has_token(post.user_info@[ko], x));
                                            assert(entry_has_token(pre.user_info@[ko], x));
                                            assert(entry_has_token(e2, x));
                                            if x == t {
                                                assert(!entry_has_token(pre.user_info@[ko], t));
                                            } else {
                                                assert(entry_has_token(
                                                    pre.user_info@[i as int],
                                                    x,
                                                ));
                                            }
                                        }
                                    }
                                }
                            }
                            assert(post.staked_have_time()) by {
                                assert forall|i2: int, j2: int|
                                    0 <= i2 < post.user_info@.len() && 0 <= j2 < post.user_info@[
                                        i2
                                    ].token_ids@.len() implies #[trigger] time_has(
                                    post.token_info@,
                                    post.user_info@[i2].token_ids@[j2]@,
                                ) by {
                                    let x = post.user_info@[i2].token_ids@[j2]@;
                                    if x != t {
                                        assert(entry_has_token(post.user_info@[i2], x));
                                        if i2 == i as int {
                                            assert(entry_has_token(pre.user_info@[i2], x));
                                        }
                                        let jj = choose|jj: int|
                                            0 <= jj < pre.user_info@[i2].token_ids@.len()
                                                && pre.user_info@[i2].token_ids@[jj]@ == x;
                                        assert(time_has(pre.token_info@, x));
                                        assert(time_has(post.token_info@, x) == time_has(
                                            pre.token_info@,
                                            x,
                                        ));
                                    }
                                }
                            }
                            lemma_sum_sizes_update(pre.user_info@, i as int, e2);
                            assert(post.total_staked == sum_sizes(post.user_info@));
                            assert(post.entries_nonempty()) by {
                                assert forall|k: int|
                                    0 <= k < post.user_info@.len() implies post.user_info@[
                                    k
                                ].token_ids@.len() > 0 by {
                                    if k != i as int {
                                        assert(post.user_info@[k] == pre.user_info@[k]);
                                    }
                                }
                            }
                            assert(post.wf());
                            assert(stake_applied(pre, post, a, t, now_sec));
                        }
                        Ok(())
                    },
                    None => {
                        proof {
                            assert(!pre.has_account(a));
                            assert(!pre.holds_token(a, t));
                        }
                        let mut toks: Vec<String> = Vec::new();
                        toks.push(token_id.clone());
                        self.user_info.push(UserStake { account_id, token_ids: toks });
                        upsert_time(&mut self.token_info, token_id, now_sec);
                        self.total_staked = self.total_staked + 1;
                        proof {
                            let post = *self;
                            let n = pre.user_info@.len() as int;
                            let e2 = post.user_info@[n];
                            assert(e2.account_id@ == a);
                            assert(e2.token_ids@.len() == 1 && e2.token_ids@[0]@ == t);
                            assert(post.user_info@ == pre.user_info@.push(e2));
                            lemma_push_entry_effects(pre, post, a);
                            assert forall|x: Seq<char>| entry_has_token(e2, x) == (x == t) by {
                                if entry_has_token(e2, x) {
                                    let j = choose|j: int|
                                        0 <= j < e2.token_ids@.len() && e2.token_ids@[j]@ == x;
                                    assert(j == 0);
                                }
                                if x == t {
                                    assert(e2.token_ids@[0]@ == x);
                                }
                            }
                            assert(post.holds_token(a, t));
                            assert(post.entries_distinct()) by {
                                assert forall|k: int|
                                    0 <= k < post.user_info@.len() implies entry_tokens_distinct(
                                    #[trigger] post.user_info@[k],
                                ) by {
                                    if k != n {
                                        assert(post.user_info@[k] == pre.user_info@[k]);
                                        assert(entry_tokens_distinct(pre.user_info@[k]));
                                    }
                                }
                            }
                            assert(post.entries_disjoint()) by {
                                assert forall|k1: int, k2: int, x: Seq<char>|
                                    0 <= k1 < post.user_info@.len() && 0 <= k2
                                        < post.user_info@.len() && k1 != k2 implies !(
                                #[trigger] entry_has_token(post.user_info@[k1], x)
                                    && #[trigger] entry_has_token(post.user_info@[k2], x)) by {
                                    if entry_has_token(post.user_info@[k1], x) && entry_has_token(
                                        post.user_info@[k2],
                                        x,
                                    ) {
                                        if k1 != n && k2 != n {
                                            assert(entry_has_token(pre.user_info@[k1], x)
                                                && entry_has_token(pre.user_info@[k2], x));
                                        } else {
                                            let ko: int = if k1 == n {
                                                k2
                                            } else {
                                                k1
                                            };
                                            assert(entry_has_token(post.user_info@[ko], x));
                                            assert(entry_has_token(pre.user_info@[ko], x));
                                            assert(entry_has_token(e2, x));
                                            assert(x == t);
                                            assert(!entry_has_token(pre.user_info@[ko], t));
                                        }
                                    }
                                }
                            }
                            assert(post.staked_have_time()) by {
                                assert forall|i2: int, j2: int|
                                    0 <= i2 < post.user_info@.len() && 0 <= j2 < post.user_info@[
                                        i2
                                    ].token_ids@.len() implies #[trigger] time_has(
                                    post.token_info@,
                                    post.user_info@[i2].token_ids@[j2]@,
                                ) by {
                                    let x = post.user_info@[i2].token_ids@[j2]@;
                                    if x != t {
                                        assert(i2 != n);
                                        assert(post.user_info@[i2] == pre.user_info@[i2]);
                                        assert(time_has(pre.token_info@, x));
                                        assert(time_has(post.token_info@, x) == time_has(
                                            pre.token_info@,
                                            x,
                                        ));
                                    }
                                }
                            }
                            lemma_sum_sizes_push(pre.user_info@, e2);
                            assert(post.total_staked == sum_sizes(post.user_info@));
                            assert(post.entries_nonempty()) by {
                                assert forall|k: int|
                                    0 <= k < post.user_info@.len() implies post.user_info@[
                                    k
                                ].token_ids@.len() > 0 by {
                                    if k != n {
                                        assert(post.user_info@[k] == pre.user_info@[k]);
                                    }
                                }
                            }
                            assert(post.wf());
                            assert(stake_applied(pre, post, a, t, now_sec));
                        }
                        Ok(())
                    },
                }
            },
        }
    }

    /// Withdraw asset `token_id` for `caller`: the asset leaves the
    /// caller's set and the returned request describes the outbound
    /// transfer handing the asset back. The local state change is
    /// committed before — and regardless of whether — that outbound
    /// transfer eventually succeeds; there is no rollback.
    pub fn unstake(&mut self, caller: AccountId, attached_deposit: u128, token_id: TokenId) -> (r:
        Result<NftTransferRequest, StakingError>)
        requires
            old(self).wf(),
        ensures
            final(self).wf(),
            attached_deposit < 1 ==> r == Err::<NftTransferRequest, StakingError>(
                StakingError::InsufficientProof,
            ) && *final(self) == *old(self),
            attached_deposit >= 1 && !old(self).holds_token(caller@, token_id@) ==> r == Err::<
                NftTransferRequest,
                StakingError,
            >(StakingError::NotStaked) && *final(self) == *old(self),
            attached_deposit >= 1 && old(self).holds_token(caller@, token_id@) ==> (r matches Ok(
                req,
            ) && req.receiver_id@ == caller@ && req.token_id@ == token_id@ && req.approval_id
                is None && req.memo is None && unstake_applied(
                *old(self),
                *final(self),
                caller@,
                token_id@,
            )),
    {
        if attached_deposit < 1 {
            return Err(StakingError::InsufficientProof);
        }
        let ghost pre = *self;
        let ghost a = caller@;
        let ghost t = token_id@;
        let i = match find_account_index(&self.user_info, &caller) {
            Some(i) => i,
            None => {
                proof {
                    assert(!pre.has_account(a));
                    assert(!pre.holds_token(a, t));
                }
                return Err(StakingError::NotStaked);
            },
        };
        proof {
            lemma_account_index_is(pre, a, i as int);
            lemma_holds_is_entry_has(pre, a, i as int);
        }
        let j = match find_token_in_list(&self.user_info[i].token_ids, &token_id) {
            Some(j) => j,
            None => {
                proof {
                    assert(!entry_has_token(pre.user_info@[i as int], t));
                }
                return Err(StakingError::NotStaked);
            },
        };
        proof {
            assert(entry_has_token(pre.user_info@[i as int], t));
            lemma_sum_sizes_remove(pre.user_info@, i as int);
            lemma_sum_sizes_nonneg(pre.user_info@.remove(i as int));
            assert(pre.total_staked >= 1);
        }
        let mut toks = clone_string_vec(&self.user_info[i].token_ids);
        toks.remove(j);
        if toks.len() == 0 {
            self.user_info.remove(i);
            self.total_staked = self.total_staked - 1;
            proof {
                let post = *self;
                let e1 = pre.user_info@[i as int];
                assert(post.user_info@ == pre.user_info@.remove(i as int));
                lemma_remove_entry_effects(pre, post, i as int);
                assert(e1.token_ids@.len() == 1);
                assert(e1.token_ids@[0]@ == t);
                assert forall|x: Seq<char>| pre.holds_token(a, x) == (x == t) by {
                    if pre.holds_token(a, x) {
                        assert(entry_has_token(e1, x));
                        let j2 = choose|j2: int|
                            0 <= j2 < e1.token_ids@.len() && e1.token_ids@[j2]@ == x;
                        assert(j2 == 0);
                    }
                    if x == t {
                        assert(entry_has_token(e1, x));
                    }
                }
                assert(!post.has_account(a));
                assert forall|x: Seq<char>| !post.holds_token(a, x) by {
                    assert(post.tokens_of(a).len() == 0);
                }
                assert(post.entries_nonempty()) by {
                    assert forall|k: int|
                        0 <= k < post.user_info@.len() implies post.user_info@[k].token_ids@.len()
                        > 0 by {
                        assert(post.user_info@[k] == pre.user_info@[if k < i as int {
                            k
                        } else {
                            k + 1
                        }]);
                    }
                }
                assert(post.entries_distinct()) by {
                    assert forall|k: int|
                        0 <= k < post.user_info@.len() implies entry_tokens_distinct(
                        #[trigger] post.user_info@[k],
                    ) by {
                        let m: int = if k < i as int {
                            k
                        } else {
                            k + 1
                        };
                        assert(post.user_info@[k] == pre.user_info@[m]);
                        assert(entry_tokens_distinct(pre.user_info@[m]));
                    }
                }
                assert(post.entries_disjoint()) by {
                    assert forall|k1: int, k2: int, x: Seq<char>|
                        0 <= k1 < post.user_info@.len() && 0 <= k2 < post.user_info@.len() && k1
                            != k2 implies !(#[trigger] entry_has_token(post.user_info@[k1], x)
                            && #[trigger] entry_has_token(post.user_info@[k2], x)) by {
                        let m1: int = if k1 < i as int {
                            k1
                        } else {
                            k1 + 1
                        };
                        let m2: int = if k2 < i as int {
                            k2
                        } else {
                            k2 + 1
                        };
                        if entry_has_token(post.user_info@[k1], x) && entry_has_token(
                            post.user_info@[k2],
                            x,
                        ) {
                            assert(entry_has_token(pre.user_info@[m1], x) && entry_has_token(
                                pre.user_info@[m2],
                                x,
                            ));
                        }
                    }
                }
                assert(post.staked_have_time()) by {
                    assert forall|i2: int, j2: int|
                        0 <= i2 < post.user_info@.len() && 0 <= j2 < post.user_info@[
                            i2
                        ].token_ids@.len() implies #[trigger] time_has(
                        post.token_info@,
                        post.user_info@[i2].token_ids@[j2]@,
                    ) by {
                        let m: int = if i2 < i as int {
                            i2
                        } else {
                            i2 + 1
                        };
                        assert(post.user_info@[i2] == pre.user_info@[m]);
                        assert(time_has(pre.token_info@, pre.user_info@[m].token_ids@[j2]@));
                    }
                }
                assert(post.total_staked == sum_sizes(post.user_info@));
                assert(post.wf());
                assert(unstake_applied(pre, post, a, t));
            }
        } else {
            let acct = self.user_info[i].account_id.clone();
            self.user_info[i] = (UserStake { account_id: acct, token_ids: toks });
            self.total_staked = self.total_staked - 1;
            proof {
                let post = *self;
                let e1 = pre.user_info@[i as int];
                let e2 = post.user_info@[i as int];
                assert(e2.account_id@ == a);
                assert(e2.token_ids@ == e1.token_ids@.remove(j as int));
                assert(post.user_info@ == pre.user_info@.update(i as int, e2));
                lemma_update_entry_effects(pre, post, i as int, a);
                lemma_holds_is_entry_has(post, a, i as int);
                assert forall|x: Seq<char>|
                    entry_has_token(e2, x) == (entry_has_token(e1, x) && x != t) by {
                    if entry_has_token(e2, x) {
                        let k = choose|k: int|
                            0 <= k < e2.token_ids@.len() && e2.token_ids@[k]@ == x;
                        let m: int = if k < j as int {
                            k
                        } else {
                            k + 1
                        };
                        assert(e1.token_ids@[m]@ == x);
                        assert(entry_has_token(e1, x));
                        assert(m != j as int);
                        if x == t {
                            if m < j as int {
                                assert(e1.token_ids@[m]@ != e1.token_ids@[j as int]@);
                            } else {
                                assert(e1.token_ids@[j as int]@ != e1.token_ids@[m]@);
                            }
                        }
                    }
                    if entry_has_token(e1, x) && x != t {
                        let k = choose|k: int|
                            0 <= k < e1.token_ids@.len() && e1.token_ids@[k]@ == x;
                        assert(k != j as int);
                        let m: int = if k < j as int {
                            k
                        } else {
                            k - 1
                        };
                        assert(e2.token_ids@[m]@ == x);
                    }
                }
                assert(entry_tokens_distinct(e2)) by {
                    assert forall|k1: int, k2: int|
                        0 <= k1 < k2 < e2.token_ids@.len() implies e2.token_ids@[k1]@
                        != e2.token_ids@[k2]@ by {
                        let m1: int = if k1 < j as int {
                            k1
                        } else {
                            k1 + 1
                        };
                        let m2: int = if k2 < j as int {
                            k2
                        } else {
                            k2 + 1
                        };
                        assert(e1.token_ids@[m1]@ != e1.token_ids@[m2]@);
                    }
                }
                assert(post.entries_distinct()) by {
                    assert forall|k: int|
                        0 <= k < post.user_info@.len() implies entry_tokens_distinct(
                        #[trigger] post.user_info@[k],
                    ) by {
                        if k != i as int {
                            assert(post.user_info@[k] == pre.user_info@[k]);
                            assert(entry_tokens_distinct(pre.user_info@[k]));
                        }
                    }
                }
                assert(post.entries_disjoint()) by {
                    assert forall|k1: int, k2: int, x: Seq<char>|
                        0 <= k1 < post.user_info@.len() && 0 <= k2 < post.user_info@.len() && k1
                            != k2 implies !(#[trigger] entry_has_token(post.user_info@[k1], x)
                            && #[trigger] entry_has_token(post.user_info@[k2], x)) by {
                        if entry_has_token(post.user_info@[k1], x) && entry_has_token(
                            post.user_info@[k2],
                            x,
                        ) {
                            if k1 != i as int && k2 != i as int {
                                assert(entry_has_token(pre.user_info@[k1], x) && entry_has_token(
                                    pre.user_info@[k2],
                                    x,
                                ));
                            } else {
                                let ko: int = if k1 == i as int {
                                    k2
                                } else {
                                    k1
                                };
                                assert(entry_has_token(e2, x));
                                assert(entry_has_token(e1, x));
                                assert(entry_has_token(pre.user_info@[ko], x));
                            }
                        }
                    }
                }
                assert(post.entries_nonempty()) by {
                    assert forall|k: int|
                        0 <= k < post.user_info@.len() implies post.user_info@[k].token_ids@.len()
                        > 0 by {
                        if k != i as int {
                            assert(post.user_info@[k] == pre.user_info@[k]);
                        }
                    }
                }
                assert(post.staked_have_time()) by {
                    assert forall|i2: int, j2: int|
                        0 <= i2 < post.user_info@.len() && 0 <= j2 < post.user_info@[
                            i2
                        ].token_ids@.len() implies #[trigger] time_has(
                        post.token_info@,
                        post.user_info@[i2].token_ids@[j2]@,
                    ) by {
                        let x = post.user_info@[i2].token_ids@[j2]@;
                        if i2 == i as int {
                            assert(entry_has_token(e2, x));
                            assert(entry_has_token(e1, x));
                            let k = choose|k: int|
                                0 <= k < e1.token_ids@.len() && e1.token_ids@[k]@ == x;
                            assert(time_has(pre.token_info@, e1.token_ids@[k]@));
                        } else {
                            assert(post.user_info@[i2] == pre.user_info@[i2]);
                            assert(time_has(pre.token_info@, pre.user_info@[i2].token_ids@[j2]@));
                        }
                    }
                }
                lemma_sum_sizes_update(pre.user_info@, i as int, e2);
                assert(post.total_staked == sum_sizes(post.user_info@));
                assert(post.wf());
                assert(post.has_account(a));
                assert(pre.tokens_of(a).len() > 1);
                assert(unstake_applied(pre, post, a, t));
            }
        }
        Ok(NftTransferRequest { receiver_id: caller, token_id, approval_id: None, memo: None })
    }

    /// Settle the reward owed to `caller` at `now_sec`. A zero reward is a
    /// no-op (`Ok(None)`): nothing is mutated and nothing is sent. A
    /// positive reward resets every settlement clock of the caller's
    /// staked assets to `now_sec` and returns the outbound reward-token
    /// request (the reward scaled by `REWARD_SCALE`); the local reset is
    /// committed regardless of whether that outbound transfer eventually
    /// succeeds.
    pub fn claim(&mut self, caller: AccountId, attached_deposit: u128, now_sec: u64) -> (r: Result<
        Option<FtTransferRequest>,
        StakingError,
    >)
        requires
            old(self).wf(),
        ensures
            final(self).wf(),
            attached_deposit < 1 ==> r == Err::<Option<FtTransferRequest>, StakingError>(
                StakingError::InsufficientProof,
            ) && *final(self) == *old(self),
            attached_deposit >= 1 && !old(self).has_account(caller@) ==> r == Err::<
                Option<FtTransferRequest>,
                StakingError,
            >(StakingError::NotStaked) && *final(self) == *old(self),
            attached_deposit >= 1 && old(self).has_account(caller@) && old(self).time_epoch == 0
                ==> r == Err::<Option<FtTransferRequest>, StakingError>(
                StakingError::DivisionByZero,
            ) && *final(self) == *old(self),
            attached_deposit >= 1 && old(self).has_account(caller@) && old(self).time_epoch > 0
                && old(self).any_future_settlement(caller@, now_sec) ==> r == Err::<
                Option<FtTransferRequest>,
                StakingError,
            >(StakingError::ArithmeticUnderflow) && *final(self) == *old(self),
            attached_deposit >= 1 && old(self).has_account(caller@) && old(self).time_epoch > 0
                && !old(self).any_future_settlement(caller@, now_sec) && old(self).reward_of(
                caller@,
                now_sec,
            ) > u64::MAX ==> r == Err::<Option<FtTransferRequest>, StakingError>(
                StakingError::ArithmeticOverflow,
            ) && *final(self) == *old(self),
            attached_deposit >= 1 && old(self).has_account(caller@) && old(self).time_epoch > 0
                && !old(self).any_future_settlement(caller@, now_sec) && old(self).reward_of(
                caller@,
                now_sec,
            ) == 0 ==> r == Ok::<Option<FtTransferRequest>, StakingError>(None) && *final(self)
                == *old(self),
            attached_deposit >= 1 && old(self).has_account(caller@) && old(self).time_epoch > 0
                && !old(self).any_future_settlement(caller@, now_sec) && 0 < old(self).reward_of(
                caller@,
                now_sec,
            ) <= u64::MAX ==> (r matches Ok(o) && o matches Some(req) && req.receiver_id@
                == caller@ && req.amount as int == old(self).reward_of(caller@, now_sec) * (
            REWARD_SCALE as int) && req.memo is None && claim_applied(
                *old(self),
                *final(self),
                caller@,
                now_sec,
            )),
    {
        if attached_deposit < 1 {
            return Err(StakingError::InsufficientProof);
        }
        let ghost pre = *self;
        let ghost a = caller@;
        let i = match find_account_index(&self.user_info, &caller) {
            Some(i) => i,
            None => {
                proof {
                    assert(!pre.has_account(a));
                }
                return Err(StakingError::NotStaked);
            },
        };
        proof {
            lemma_account_index_is(pre, a, i as int);
            lemma_holds_is_entry_has(pre, a, i as int);
        }
        let reward = match self.get_reward(caller.clone(), now_sec) {
            Ok(v) => v,
            Err(e) => {
                return Err(e);
            },
        };
        if reward == 0 {
            return Ok(None);
        }
        let ghost toks = pre.tokens_of(a);
        let n = self.user_info[i].token_ids.len();
        let mut j: usize = 0;
        while j < n
            invariant
                pre.wf(),
                i < self.user_info@.len(),
                self.user_info == pre.user_info,
                self.owner_id == pre.owner_id,
                self.nft_contract_id == pre.nft_contract_id,
                self.ft_token_id == pre.ft_token_id,
                self.token_reward == pre.token_reward,
                self.time_epoch == pre.time_epoch,
                self.total_staked == pre.total_staked,
                toks == pre.user_info@[i as int].token_ids@,
                n == toks.len(),
                j <= n,
                time_keys_distinct(self.token_info@),
                forall|x: Seq<char>|
                    time_has(self.token_info@, x) == time_has(pre.token_info@, x),
                forall|x: Seq<char>|
                    time_get(self.token_info@, x) == (if in_prefix(toks, j as int, x) {
                        now_sec
                    } else {
                        time_get(pre.token_info@, x)
                    }),
            decreases n - j,
        {
            let tkn = self.user_info[i].token_ids[j].clone();
            let ghost before = self.token_info@;
            upsert_time(&mut self.token_info, tkn, now_sec);
            proof {
                let tj = toks[j as int]@;
                assert(time_has(pre.token_info@, tj));
                assert forall|x: Seq<char>|
                    time_has(self.token_info@, x) == time_has(pre.token_info@, x) by {
                    if x != tj {
                        assert(time_has(self.token_info@, x) == time_has(before, x));
                    }
                }
                assert forall|x: Seq<char>|
                    time_get(self.token_info@, x) == (if in_prefix(toks, j as int + 1, x) {
                        now_sec
                    } else {
                        time_get(pre.token_info@, x)
                    }) by {
                    if x == tj {
                        assert(in_prefix(toks, j as int + 1, x));
                    } else {
                        assert(time_get(self.token_info@, x) == time_get(before, x));
                        assert(in_prefix(toks, j as int + 1, x) == in_prefix(toks, j as int, x))
                            by {
                            if in_prefix(toks, j as int + 1, x) {
                                let k = choose|k: int| 0 <= k < j as int + 1 && toks[k]@ == x;
                                assert(k != j as int);
                                assert(in_prefix(toks, j as int, x));
                            }
                            if in_prefix(toks, j as int, x) {
                                let k = choose|k: int| 0 <= k < j as int && toks[k]@ == x;
                                assert(0 <= k < j as int + 1 && toks[k]@ == x);
                            }
                        }
                    }
                }
            }
            j += 1;
        }
        proof {
            let post = *self;
            lemma_same_users(pre, post);
            assert forall|x: Seq<char>|
                post.settlement_time(x) == (if pre.holds_token(a, x) {
                    now_sec
                } else {
                    pre.settlement_time(x)
                }) by {
                assert(in_prefix(toks, n as int, x) == pre.holds_token(a, x)) by {
                    if in_prefix(toks, n as int, x) {
                        let k = choose|k: int| 0 <= k < n as int && toks[k]@ == x;
                        assert(entry_has_token(pre.user_info@[i as int], x));
                    }
                    if pre.holds_token(a, x) {
                        assert(entry_has_token(pre.user_info@[i as int], x));
                        let k = choose|k: int|
                            0 <= k < pre.user_info@[i as int].token_ids@.len()
                                && pre.user_info@[i as int].token_ids@[k]@ == x;
                        assert(0 <= k < n as int && toks[k]@ == x);
                    }
                }
            }
            assert(post.staked_have_time()) by {
                assert forall|i2: int, j2: int|
                    0 <= i2 < post.user_info@.len() && 0 <= j2 < post.user_info@[
                        i2
                    ].token_ids@.len() implies #[trigger] time_has(
                    post.token_info@,
                    post.user_info@[i2].token_ids@[j2]@,
                ) by {
                    assert(time_has(pre.token_info@, pre.user_info@[i2].token_ids@[j2]@));
                }
            }
            assert(post.total_staked == sum_sizes(post.user_info@));
            assert(post.wf());
            assert(claim_applied(pre, post, a, now_sec));
        }
        let amount: u128 = (reward as u128) * REWARD_SCALE;
        Ok(Some(FtTransferRequest { receiver_id: caller, amount, memo: None }))
    }
}

// ---------------------------------------------------------------------------
// Laws of every well-formed registry state. Each operation above ensures
// `wf`, so these hold at every point of any sequence of operations.
// ---------------------------------------------------------------------------

/// The global `total_staked` counter equals the sum of the per-account
/// staked-set sizes, in every well-formed state.
pub proof fn lemma_total_staked_is_sum(c: Contract)
    requires
        c.wf(),
    ensures
        c.total_staked == sum_sizes(c.user_info@),
{
}

/// An account that holds an asset has an entry.
pub proof fn lemma_holder_has_account(c: Contract, a: Seq<char>, t: Seq<char>)
    requires
        c.holds_token(a, t),
    ensures
        c.has_account(a),
{
    if !c.has_account(a) {
        assert(c.tokens_of(a).len() == 0);
    }
}

/// No asset is ever staked by two different accounts at once.
pub proof fn lemma_no_double_stake(c: Contract, a1: Seq<char>, a2: Seq<char>, t: Seq<char>)
    requires
        c.wf(),
        a1 != a2,
        c.holds_token(a1, t),
    ensures
        !c.holds_token(a2, t),
{
    if c.holds_token(a2, t) {
        lemma_holder_has_account(c, a1, t);
        lemma_holder_has_account(c, a2, t);
        let i1 = c.account_index(a1);
        let i2 = c.account_index(a2);
        assert(0 <= i1 < c.user_info@.len() && c.user_info@[i1].account_id@ == a1);
        assert(0 <= i2 < c.user_info@.len() && c.user_info@[i2].account_id@ == a2);
        lemma_holds_is_entry_has(c, a1, i1);
        lemma_holds_is_entry_has(c, a2, i2);
        assert(entry_has_token(c.user_info@[i1], t) && entry_has_token(c.user_info@[i2], t));
    }
}

/// No account's staked set ever contains an asset id twice (set
/// semantics).
pub proof fn lemma_staked_set_duplicate_free(c: Contract, a: Seq<char>)
    requires
        c.wf(),
    ensures
        forall|j1: int, j2: int|
            0 <= j1 < j2 < c.tokens_of(a).len() ==> c.tokens_of(a)[j1]@ != c.tokens_of(a)[j2]@,
{
    if c.has_account(a) {
        let i = c.account_index(a);
        assert(0 <= i < c.user_info@.len() && c.user_info@[i].account_id@ == a);
        lemma_account_index_is(c, a, i);
        assert(entry_tokens_distinct(c.user_info@[i]));
    }
}

/// A partial epoch earns nothing: while no staked asset of `a` has yet
/// completed a whole epoch, the reward owed to `a` is zero (so a claim is
/// a no-op).
pub proof fn lemma_no_whole_epoch_no_reward(c: Contract, a: Seq<char>, now_sec: u64)
    requires
        c.time_epoch > 0,
        forall|j: int|
            0 <= j < c.tokens_of(a).len() ==> c.settlement_time(c.tokens_of(a)[j]@) <= now_sec
                && now_sec - c.settlement_time(c.tokens_of(a)[j]@) < c.time_epoch,
    ensures
        c.reward_of(a, now_sec) == 0,
{
    lemma_sum_epochs_zero(c, c.tokens_of(a), now_sec);
}

/// Summed whole epochs are zero while every asset is within its first
/// epoch.
proof fn lemma_sum_epochs_zero(c: Contract, toks: Seq<String>, now_sec: u64)
    requires
        c.time_epoch > 0,
        forall|j: int|
            0 <= j < toks.len() ==> c.settlement_time(toks[j]@) <= now_sec && now_sec
                - c.settlement_time(toks[j]@) < c.time_epoch,
    ensures
        c.sum_epochs(toks, now_sec) == 0,
    decreases toks.len(),
{
    if toks.len() > 0 {
        let s0 = c.settlement_time(toks[0]@);
        vstd::arithmetic::div_mod::lemma_basic_div_specific_divisor(c.time_epoch as int);
        assert(epochs_accrued(now_sec, s0, c.time_epoch) == 0);
        assert(forall|j: int|
            0 <= j < toks.drop_first().len() ==> toks.drop_first()[j] == toks[j + 1]);
        lemma_sum_epochs_zero(c, toks.drop_first(), now_sec);
    }
}

/// Round trip: staking a fresh asset `t` for `a` and then unstaking it
/// leaves every account holding exactly what it held before, and the
/// global counter where it was.
pub proof fn lemma_stake_unstake_round_trip(
    s0: Contract,
    s1: Contract,
    s2: Contract,
    a: Seq<char>,
    t: Seq<char>,
    now_sec: u64,
)
    requires
        !s0.holds_token(a, t),
        stake_applied(s0, s1, a, t, now_sec),
        unstake_applied(s1, s2, a, t),
    ensures
        forall|x: Seq<char>| s2.holds_token(a, x) == s0.holds_token(a, x),
        forall|b: Seq<char>, x: Seq<char>| b != a ==> s2.holds_token(b, x) == s0.holds_token(b, x),
        s2.total_staked == s0.total_staked,
{
    assert forall|x: Seq<char>| s2.holds_token(a, x) == s0.holds_token(a, x) by {
        if x == t {
            assert(!s2.holds_token(a, x));
        } else {
            assert(s2.holds_token(a, x) == s1.holds_token(a, x));
            assert(s1.holds_token(a, x) == s0.holds_token(a, x));
        }
    }
}

/// Every staked asset has a settlement record.
pub proof fn lemma_staked_has_settlement(c: Contract, a: Seq<char>, t: Seq<char>)
    requires
        c.wf(),
        c.holds_token(a, t),
    ensures
        c.has_time(t),
{
    lemma_holder_has_account(c, a, t);
    let i = c.account_index(a);
    assert(0 <= i < c.user_info@.len() && c.user_info@[i].account_id@ == a);
    lemma_holds_is_entry_has(c, a, i);
    assert(entry_has_token(c.user_info@[i], t));
    let j = choose|j: int|
        0 <= j < c.user_info@[i].token_ids@.len() && c.user_info@[i].token_ids@[j]@ == t;
    assert(time_has(c.token_info@, c.user_info@[i].token_ids@[j]@));
}

} // verus!
