//! The pool registry and the accounting engine: pool creation, liquidity
//! provision and removal, and constant-product swaps.
//!
//! The engine decides every balance change and records it in its own state;
//! realizing the corresponding asset transfers is the host's task, which is
//! handed the decided amounts in each operation's result.

use vstd::prelude::*;
use crate::bytes::{
    Address, Bytes32, addr_is_zero, addr_le, addr_is_zero_exec, bytes32_eq, lex_le,
    lemma_lex_le_total,
};
use crate::hashing::{
    spec_pool_id, spec_position_id, spec_token0, spec_token1, keccak32, encode_pool_key,
    encode_position_key,
};
use crate::math::{integer_sqrt, min_int, mul_u64};

verus! {

broadcast use vstd::array::group_array_axioms;

/// Liquidity units permanently locked into a pool by its first deposit, never
/// credited to any position.
pub const MIN_LIQUIDITY: u64 = 1000;

/// One owner's liquidity balance within one pool.
pub struct Position {
    /// The digest of (pool identifier, owner address) this entry is keyed by.
    pub id: Bytes32,
    /// The address credited; set or overwritten on every deposit by this id.
    pub owner: Address,
    /// The owner's share of the pool's total liquidity units.
    pub liquidity: u64,
}

/// A bonded pair of two asset types plus a fee tier, holding reserves and
/// tracking liquidity ownership.
pub struct Pool {
    /// The digest of (token0, token1, fee) this pool is keyed by.
    pub id: Bytes32,
    /// The lexicographically smaller token address.
    pub token0: Address,
    /// The lexicographically larger token address.
    pub token1: Address,
    /// Fee tier in basis points; fits in 24 bits.
    pub fee: u32,
    /// Total minted ownership units.
    pub liquidity: u64,
    /// Pooled reserves of `token0`.
    pub balance0: u64,
    /// Pooled reserves of `token1`.
    pub balance1: u64,
    /// The positions held in this pool.
    pub positions: Vec<Position>,
}

/// The registry of all pools, and the single entrypoint of the engine.
pub struct StylusSwap {
    /// The pool records, keyed by their content-derived identifiers.
    pub pools: Vec<Pool>,
}

/// The errors an operation can report.
#[derive(Debug, PartialEq, Eq)]
pub enum StylusSwapError {
    /// A pool with this identifier was already created.
    PoolAlreadyExists { pool_id: Bytes32 },
    /// No pool with this identifier was created.
    PoolDoesNotExist { pool_id: Bytes32 },
    /// The deposit ratio resolution could not satisfy the caller's minimums.
    InsufficientAmount,
    /// The computed liquidity amount to mint is not strictly positive.
    InsufficientLiquidityMinted,
    /// A withdrawal exceeds the owned share, or resolves to dust amounts.
    InsufficientLiquidityOwned,
    /// The host's asset-transfer gateway reported failure or returned false.
    FailedOrInsufficientTokenTransfer { token: Address, from: Address, to: Address, amount: u64 },
    /// A swap's net output fell below the caller's floor.
    TooMuchSlippage,
}

/// A pool record counts as an existing pool exactly when its tokens are not
/// both the zero address.
pub open spec fn pool_exists(p: Pool) -> bool {
    !(addr_is_zero(p.token0.bytes@) && addr_is_zero(p.token1.bytes@))
}

/// Whether some pool record carries the given identifier.
pub open spec fn has_pool(pools: Seq<Pool>, id: Seq<u8>) -> bool {
    exists|i: int| 0 <= i < pools.len() && pools[i].id.bytes@ == id
}

/// The index of the pool record carrying the given identifier.
pub open spec fn pool_idx(pools: Seq<Pool>, id: Seq<u8>) -> int {
    choose|i: int| 0 <= i < pools.len() && pools[i].id.bytes@ == id
}

/// The pool record carrying the given identifier.
pub open spec fn pool_at(pools: Seq<Pool>, id: Seq<u8>) -> Pool {
    pools[pool_idx(pools, id)]
}

/// Whether some position carries the given identifier.
pub open spec fn has_position(ps: Seq<Position>, id: Seq<u8>) -> bool {
    exists|i: int| 0 <= i < ps.len() && ps[i].id.bytes@ == id
}

/// The index of the position carrying the given identifier.
pub open spec fn position_idx(ps: Seq<Position>, id: Seq<u8>) -> int {
    choose|i: int| 0 <= i < ps.len() && ps[i].id.bytes@ == id
}

/// The position carrying the given identifier.
pub open spec fn position_at(ps: Seq<Position>, id: Seq<u8>) -> Position {
    ps[position_idx(ps, id)]
}

/// The liquidity owned by the position with the given identifier, or zero
/// when there is none.
pub open spec fn position_liquidity(ps: Seq<Position>, id: Seq<u8>) -> int {
    if has_position(ps, id) {
        position_at(ps, id).liquidity as int
    } else {
        0
    }
}

/// The total liquidity attributed to positions.
pub open spec fn sum_liquidity(ps: Seq<Position>) -> int
    decreases ps.len(),
{
    if ps.len() == 0 {
        0
    } else {
        ps[0].liquidity + sum_liquidity(ps.skip(1))
    }
}

/// No two pool records share an identifier.
pub open spec fn pool_ids_unique(pools: Seq<Pool>) -> bool {
    forall|i: int, j: int|
        0 <= i < j < pools.len() ==> pools[i].id.bytes@ != pools[j].id.bytes@
}

/// No two positions share an identifier.
pub open spec fn position_ids_unique(ps: Seq<Position>) -> bool {
    forall|i: int, j: int| 0 <= i < j < ps.len() ==> ps[i].id.bytes@ != ps[j].id.bytes@
}

/// Well-formedness of one pool record: the tokens are stored in canonical
/// order, the fee fits in 24 bits, position identifiers are distinct, the
/// positions' liquidity accounts for the total minus the bootstrap lock, and
/// a record whose tokens are both zero holds nothing.
pub open spec fn pool_wf(p: Pool) -> bool {
    &&& lex_le(p.token0.bytes@, p.token1.bytes@)
    &&& p.fee < 0x1000000
    &&& position_ids_unique(p.positions@)
    &&& p.liquidity == 0 ==> sum_liquidity(p.positions@) == 0
    &&& p.liquidity > 0 ==> p.liquidity >= MIN_LIQUIDITY && sum_liquidity(p.positions@)
        == p.liquidity - MIN_LIQUIDITY
    &&& !pool_exists(p) ==> p.liquidity == 0 && p.balance0 == 0 && p.balance1 == 0
        && p.positions@.len() == 0
}

impl StylusSwap {
    /// Well-formedness of the whole registry.
    pub open spec fn wf(self) -> bool {
        &&& pool_ids_unique(self.pools@)
        &&& forall|i: int| 0 <= i < self.pools@.len() ==> pool_wf(#[trigger] self.pools@[i])
    }
}

/// The total position liquidity is never negative.
pub proof fn lemma_sum_nonneg(ps: Seq<Position>)
    ensures
        sum_liquidity(ps) >= 0,
    decreases ps.len(),
{
    if ps.len() > 0 {
        lemma_sum_nonneg(ps.skip(1));
    }
}

/// Replacing one position changes the total by the difference of that entry.
pub proof fn lemma_sum_update(ps: Seq<Position>, i: int, p: Position)
    requires
        0 <= i < ps.len(),
    ensures
        sum_liquidity(ps.update(i, p)) == sum_liquidity(ps) - ps[i].liquidity + p.liquidity,
    decreases ps.len(),
{
    if i == 0 {
        assert(ps.update(0, p).skip(1) =~= ps.skip(1));
    } else {
        assert(ps.update(i, p).skip(1) =~= ps.skip(1).update(i - 1, p));
        lemma_sum_update(ps.skip(1), i - 1, p);
    }
}

/// Appending a position adds its liquidity to the total.
pub proof fn lemma_sum_push(ps: Seq<Position>, p: Position)
    ensures
        sum_liquidity(ps.push(p)) == sum_liquidity(ps) + p.liquidity,
    decreases ps.len(),
{
    if ps.len() == 0 {
        assert(ps.push(p)[0] == p);
        assert(ps.push(p).skip(1) =~= Seq::<Position>::empty());
        assert(sum_liquidity(Seq::<Position>::empty()) == 0);
    } else {
        assert(ps.push(p)[0] == ps[0]);
        assert(ps.push(p).skip(1) =~= ps.skip(1).push(p));
        lemma_sum_push(ps.skip(1), p);
    }
}

/// No single position owns more than the total.
pub proof fn lemma_sum_element(ps: Seq<Position>, i: int)
    requires
        0 <= i < ps.len(),
    ensures
        ps[i].liquidity <= sum_liquidity(ps),
    decreases ps.len(),
{
    if i == 0 {
        lemma_sum_nonneg(ps.skip(1));
    } else {
        lemma_sum_element(ps.skip(1), i - 1);
    }
}

/// With distinct identifiers, an index holding the identifier is the index
/// the registry resolves it to.
pub proof fn lemma_pool_idx_of(pools: Seq<Pool>, id: Seq<u8>, i: int)
    requires
        pool_ids_unique(pools),
        0 <= i < pools.len(),
        pools[i].id.bytes@ == id,
    ensures
        has_pool(pools, id),
        pool_idx(pools, id) == i,
        pool_at(pools, id) == pools[i],
{
    assert(has_pool(pools, id));
    let j = pool_idx(pools, id);
    assert(0 <= j < pools.len() && pools[j].id.bytes@ == id);
}

/// With distinct identifiers, an index holding the identifier is the index
/// the position table resolves it to.
pub proof fn lemma_position_idx_of(ps: Seq<Position>, id: Seq<u8>, i: int)
    requires
        position_ids_unique(ps),
        0 <= i < ps.len(),
        ps[i].id.bytes@ == id,
    ensures
        has_position(ps, id),
        position_idx(ps, id) == i,
        position_at(ps, id) == ps[i],
{
    assert(has_position(ps, id));
    let j = position_idx(ps, id);
    assert(0 <= j < ps.len() && ps[j].id.bytes@ == id);
}

/// Finds the index of the pool record with the given identifier.
fn find_pool(pools: &Vec<Pool>, pool_id: &Bytes32) -> (r: Option<usize>)
    ensures
        match r {
            Some(i) => 0 <= i < pools@.len() && pools@[i as int].id.bytes@ == pool_id.bytes@,
            None => !has_pool(pools@, pool_id.bytes@),
        },
{
    let n = pools.len();
    let mut i: usize = 0;
    while i < n
        invariant
            0 <= i <= n,
            n == pools@.len(),
            forall|j: int| 0 <= j < i ==> pools@[j].id.bytes@ != pool_id.bytes@,
        decreases n - i,
    {
        if bytes32_eq(&pools[i].id, pool_id) {
            return Some(i);
        }
        i += 1;
    }
    None
}

/// Finds the index of the position with the given identifier.
fn find_position(ps: &Vec<Position>, position_id: &Bytes32) -> (r: Option<usize>)
    ensures
        match r {
            Some(i) => 0 <= i < ps@.len() && ps@[i as int].id.bytes@ == position_id.bytes@,
            None => !has_position(ps@, position_id.bytes@),
        },
{
    let n = ps.len();
    let mut i: usize = 0;
    while i < n
        invariant
            0 <= i <= n,
            n == ps@.len(),
            forall|j: int| 0 <= j < i ==> ps@[j].id.bytes@ != position_id.bytes@,
        decreases n - i,
    {
        if bytes32_eq(&ps[i].id, position_id) {
            return Some(i);
        }
        i += 1;
    }
    None
}

impl StylusSwap {
    /// An empty registry.
    pub fn new() -> (r: StylusSwap)
        ensures
            r.wf(),
            r.pools@.len() == 0,
    {
        StylusSwap { pools: Vec::new() }
    }

    /// The canonical pool identifier of a token pair and fee tier, together
    /// with the pair in canonical order.
    pub fn get_pool_id(&self, token_a: Address, token_b: Address, fee: u32) -> (r: (
        Bytes32,
        Address,
        Address,
    ))
        requires
            fee < 0x1000000,
        ensures
            r.0.bytes@ == spec_pool_id(token_a, token_b, fee as int),
            r.1 == spec_token0(token_a, token_b),
            r.2 == spec_token1(token_a, token_b),
            lex_le(r.1.bytes@, r.2.bytes@),
    {
        proof {
            lemma_lex_le_total(token_a.bytes@, token_b.bytes@);
        }
        let (token0, token1) = if addr_le(&token_a, &token_b) {
            (token_a, token_b)
        } else {
            (token_b, token_a)
        };
        let encoded = encode_pool_key(&token0, &token1, fee);
        let id = keccak32(&encoded);
        (id, token0, token1)
    }

    /// The identifier of an owner's position within a pool.
    pub fn get_position_id(&self, pool_id: Bytes32, owner: Address) -> (r: Bytes32)
        ensures
            r.bytes@ == spec_position_id(pool_id.bytes@, owner.bytes@),
    {
        let encoded = encode_position_key(&pool_id, &owner);
        keccak32(&encoded)
    }

    /// Creates the pool of a token pair and fee tier, exactly once: a second
    /// creation of the same combination fails with `PoolAlreadyExists`, and
    /// the first one records a pool with zeroed reserves and liquidity.
    pub fn create_pool(&mut self, token_a: Address, token_b: Address, fee: u32) -> (r: Result<
        (),
        StylusSwapError,
    >)
        requires
            old(self).wf(),
            fee < 0x1000000,
        ensures
            final(self).wf(),
            ({
                let id = spec_pool_id(token_a, token_b, fee as int);
                let pools = old(self).pools@;
                if has_pool(pools, id) && pool_exists(pool_at(pools, id)) {
                    &&& *final(self) == *old(self)
                    &&& (r matches Err(e) && e matches StylusSwapError::PoolAlreadyExists {
                        pool_id,
                    } && pool_id.bytes@ == id)
                } else {
                    &&& r == Ok::<(), StylusSwapError>(())
                    &&& has_pool(final(self).pools@, id)
                    &&& (pool_at(final(self).pools@, id) == (Pool {
                        id: pool_at(final(self).pools@, id).id,
                        token0: spec_token0(token_a, token_b),
                        token1: spec_token1(token_a, token_b),
                        fee,
                        liquidity: 0,
                        balance0: 0,
                        balance1: 0,
                        positions: pool_at(final(self).pools@, id).positions,
                    }))
                    &&& pool_at(final(self).pools@, id).positions@.len() == 0
                    &&& (!(addr_is_zero(token_a.bytes@) && addr_is_zero(token_b.bytes@))
                        ==> pool_exists(pool_at(final(self).pools@, id)))
                    &&& (if has_pool(pools, id) {
                        final(self).pools@ =~= pools.update(
                            pool_idx(pools, id),
                            pool_at(final(self).pools@, id),
                        )
                    } else {
                        final(self).pools@ =~= pools.push(pool_at(final(self).pools@, id))
                    })
                }
            }),
    {
        let (pool_id, token0, token1) = self.get_pool_id(token_a, token_b, fee);
        let ghost id = pool_id.bytes@;
        let ghost pools0 = self.pools@;
        let found = find_pool(&self.pools, &pool_id);
        match found {
            Some(i) => {
                proof {
                    lemma_pool_idx_of(pools0, id, i as int);
                }
                let token0_zero = addr_is_zero_exec(&self.pools[i].token0);
                let token1_zero = addr_is_zero_exec(&self.pools[i].token1);
                if !token0_zero || !token1_zero {
                    return Err(StylusSwapError::PoolAlreadyExists { pool_id });
                }
                let p = &mut self.pools[i];
                p.token0 = token0;
                p.token1 = token1;
                p.fee = fee;
                p.liquidity = 0;
                p.balance0 = 0;
                p.balance1 = 0;
                proof {
                    lemma_pool_idx_of(self.pools@, id, i as int);
                    assert(self.pools@ =~= pools0.update(i as int, self.pools@[i as int]));
                    let a0 = addr_is_zero(token_a.bytes@);
                    let b0 = addr_is_zero(token_b.bytes@);
                    if !(a0 && b0) {
                        assert(pool_exists(self.pools@[i as int]));
                    }
                }
                Ok(())
            },
            None => {
                let new_pool = Pool {
                    id: pool_id,
                    token0,
                    token1,
                    fee,
                    liquidity: 0,
                    balance0: 0,
                    balance1: 0,
                    positions: Vec::new(),
                };
                self.pools.push(new_pool);
                proof {
                    let n = pools0.len() as int;
                    assert(self.pools@[n].id.bytes@ == id);
                    assert(pool_ids_unique(self.pools@));
                    lemma_pool_idx_of(self.pools@, id, n);
                    assert(forall|k: int|
                        0 <= k < n ==> self.pools@[k] == pools0[k]);
                    let a0 = addr_is_zero(token_a.bytes@);
                    let b0 = addr_is_zero(token_b.bytes@);
                    if !(a0 && b0) {
                        assert(pool_exists(self.pools@[n]));
                    }
                }
                Ok(())
            },
        }
    }

    /// The pool record carrying the given identifier, if any.
    pub fn get_pool(&self, pool_id: &Bytes32) -> (r: Option<&Pool>)
        requires
            self.wf(),
        ensures
            match r {
                Some(p) => has_pool(self.pools@, pool_id.bytes@) && *p == pool_at(
                    self.pools@,
                    pool_id.bytes@,
                ),
                None => !has_pool(self.pools@, pool_id.bytes@),
            },
    {
        match find_pool(&self.pools, pool_id) {
            Some(i) => {
                proof {
                    lemma_pool_idx_of(self.pools@, pool_id.bytes@, i as int);
                }
                Some(&self.pools[i])
            },
            None => None,
        }
    }

    /// The position carrying the given identifier within the given pool, if
    /// any.
    pub fn get_position(&self, pool_id: &Bytes32, position_id: &Bytes32) -> (r: Option<&Position>)
        requires
            self.wf(),
        ensures
            match r {
                Some(q) => has_pool(self.pools@, pool_id.bytes@) && has_position(
                    pool_at(self.pools@, pool_id.bytes@).positions@,
                    position_id.bytes@,
                ) && *q == position_at(
                    pool_at(self.pools@, pool_id.bytes@).positions@,
                    position_id.bytes@,
                ),
                None => !has_pool(self.pools@, pool_id.bytes@) || !has_position(
                    pool_at(self.pools@, pool_id.bytes@).positions@,
                    position_id.bytes@,
                ),
            },
    {
        match find_pool(&self.pools, pool_id) {
            Some(i) => {
                proof {
                    lemma_pool_idx_of(self.pools@, pool_id.bytes@, i as int);
                }
                match find_position(&self.pools[i].positions, position_id) {
                    Some(k) => {
                        proof {
                            lemma_position_idx_of(
                                self.pools@[i as int].positions@,
                                position_id.bytes@,
                                k as int,
                            );
                        }
                        Some(&self.pools[i].positions[k])
                    },
                    None => None,
                }
            },
            None => None,
        }
    }
}

/// The deposit pair resolved against the reserve ratio: all of `d0` is used
/// when the ratio-implied amount of asset 1 fits under `d1`, otherwise all of
/// `d1`; the ratio-implied amount is rejected when it falls below the
/// caller's floor for its asset.
pub open spec fn spec_liquidity_amounts(
    d0: int,
    d1: int,
    min0: int,
    min1: int,
    b0: int,
    b1: int,
) -> Option<(int, int)> {
    let a1_given_0 = d0 * b1 / b0;
    let a0_given_1 = d1 * b0 / b1;
    if a1_given_0 <= d1 {
        if a1_given_0 < min1 {
            None
        } else {
            Some((d0, a1_given_0))
        }
    } else {
        if a0_given_1 < min0 {
            None
        } else {
            Some((a0_given_1, d1))
        }
    }
}

/// When the ratio-implied amount of asset 1 exceeds `d1`, the ratio-implied
/// amount of asset 0 stays strictly below `d0`.
proof fn lemma_ratio_flip(d0: int, d1: int, b0: int, b1: int)
    requires
        0 <= d0,
        0 <= d1,
        1 <= b0,
        1 <= b1,
        d0 * b1 / b0 > d1,
    ensures
        d1 * b0 / b1 < d0,
{
    let q = d0 * b1 / b0;
    vstd::arithmetic::div_mod::lemma_fundamental_div_mod(d0 * b1, b0);
    vstd::arithmetic::div_mod::lemma_mod_bound(d0 * b1, b0);
    assert(d0 * b1 >= b0 * q);
    assert(b0 * q >= b0 * (d1 + 1)) by (nonlinear_arith)
        requires
            q >= d1 + 1,
            b0 >= 1,
    ;
    assert(b0 * (d1 + 1) == b0 * d1 + b0) by (nonlinear_arith);
    assert(d1 * b0 == b0 * d1) by (nonlinear_arith);
    assert(d1 * b0 <= d0 * b1 - 1);
    assert(d0 >= 1) by (nonlinear_arith)
        requires
            d0 * b1 >= 1,
            b1 >= 1,
            0 <= d0,
    ;
    assert(d0 * b1 - 1 == (d0 - 1) * b1 + (b1 - 1)) by (nonlinear_arith);
    vstd::arithmetic::div_mod::lemma_fundamental_div_mod_converse(
        d0 * b1 - 1,
        b1,
        d0 - 1,
        b1 - 1,
    );
    vstd::arithmetic::div_mod::lemma_div_is_ordered(d1 * b0, d0 * b1 - 1, b1);
}

/// A product scaled down by a divisor at least one factor stays at or below
/// the other factor: `x * y / d <= x` when `y <= d`.
proof fn lemma_mul_div_le(x: int, y: int, d: int)
    requires
        0 <= x,
        0 <= y <= d,
        1 <= d,
    ensures
        x * y / d <= x,
{
    assert(x * y <= x * d) by (nonlinear_arith)
        requires
            0 <= x,
            y <= d,
    ;
    vstd::arithmetic::div_mod::lemma_div_is_ordered(x * y, x * d, d);
    assert(x * d == d * x) by (nonlinear_arith);
    vstd::arithmetic::div_mod::lemma_div_multiples_vanish(x, d);
}

/// How a deposit reshapes a pool's position table: the entry keyed by
/// `pos_id` is credited with `minted` and its owner set, a missing entry
/// appearing holding exactly that much.
pub open spec fn positions_credited(
    old_ps: Seq<Position>,
    new_ps: Seq<Position>,
    pos_id: Seq<u8>,
    owner: Address,
    minted: int,
) -> bool {
    if has_position(old_ps, pos_id) {
        new_ps == old_ps.update(
            position_idx(old_ps, pos_id),
            (Position {
                owner,
                liquidity: (position_at(old_ps, pos_id).liquidity + minted) as u64,
                ..position_at(old_ps, pos_id)
            }),
        )
    } else {
        &&& new_ps.len() == old_ps.len() + 1
        &&& new_ps.subrange(0, old_ps.len() as int) == old_ps
        &&& new_ps.last().id.bytes@ == pos_id
        &&& new_ps.last().owner == owner
        &&& new_ps.last().liquidity == minted
    }
}

/// Credits `minted` liquidity to the position keyed by `position_id`,
/// creating it when absent and setting its owner.
fn credit_position(ps: &mut Vec<Position>, position_id: Bytes32, owner: Address, minted: u64)
    requires
        position_ids_unique(old(ps)@),
        position_liquidity(old(ps)@, position_id.bytes@) + minted <= u64::MAX,
    ensures
        position_ids_unique(final(ps)@),
        positions_credited(old(ps)@, final(ps)@, position_id.bytes@, owner, minted as int),
        sum_liquidity(final(ps)@) == sum_liquidity(old(ps)@) + minted,
{
    let ghost ps0 = ps@;
    let ghost pid = position_id.bytes@;
    let found = find_position(ps, &position_id);
    match found {
        Some(k) => {
            proof {
                lemma_position_idx_of(ps0, pid, k as int);
            }
            let q = &mut ps[k];
            q.owner = owner;
            q.liquidity = q.liquidity + minted;
            proof {
                assert(ps@ == ps0.update(k as int, ps@[k as int]));
                assert(ps@[k as int] == (Position {
                    owner,
                    liquidity: (position_at(ps0, pid).liquidity + minted) as u64,
                    ..position_at(ps0, pid)
                }));
                lemma_sum_update(ps0, k as int, ps@[k as int]);
                assert forall|m: int, n: int| 0 <= m < n < ps@.len() implies ps@[m].id.bytes@
                    != ps@[n].id.bytes@ by {
                    assert(ps@[m].id == ps0[m].id);
                    assert(ps@[n].id == ps0[n].id);
                }
            }
        },
        None => {
            ps.push(Position { id: position_id, owner, liquidity: minted });
            proof {
                let n = ps0.len() as int;
                assert(ps@.subrange(0, n) =~= ps0);
                assert forall|m: int, q: int| 0 <= m < q < ps@.len() implies ps@[m].id.bytes@
                    != ps@[q].id.bytes@ by {
                    if q < n {
                        assert(ps@[m].id == ps0[m].id);
                        assert(ps@[q].id == ps0[q].id);
                    } else {
                        assert(ps@[m].id == ps0[m].id);
                        assert(ps@[q].id.bytes@ == pid);
                    }
                }
                lemma_sum_push(ps0, ps@[n]);
            }
        },
    }
}

/// One pool after a deposit: reserves grown by the deposited amounts, total
/// liquidity by the pool-side mint, and the depositor's position credited
/// with the position-side mint.
pub open spec fn deposit_applied(
    p: Pool,
    q: Pool,
    pos_id: Seq<u8>,
    owner: Address,
    minted: int,
    pool_minted: int,
    a0: int,
    a1: int,
) -> bool {
    &&& q.id == p.id
    &&& q.token0 == p.token0
    &&& q.token1 == p.token1
    &&& q.fee == p.fee
    &&& q.liquidity == p.liquidity + pool_minted
    &&& q.balance0 == p.balance0 + a0
    &&& q.balance1 == p.balance1 + a1
    &&& positions_credited(p.positions@, q.positions@, pos_id, owner, minted)
}

/// Exactly what `add_liquidity` returns and how it reshapes the registry.
pub open spec fn add_liquidity_post(
    pre: StylusSwap,
    post: StylusSwap,
    r: Result<(u64, u64), StylusSwapError>,
    pool_id: Bytes32,
    d0: u64,
    d1: u64,
    min0: u64,
    min1: u64,
    caller: Address,
) -> bool {
    let pools = pre.pools@;
    let id = pool_id.bytes@;
    if !(has_pool(pools, id) && pool_exists(pool_at(pools, id))) {
        &&& post == pre
        &&& (r matches Err(e) && e matches StylusSwapError::PoolDoesNotExist { pool_id: q } && q
            == pool_id)
    } else {
        let i = pool_idx(pools, id);
        let p = pools[i];
        let pos_id = spec_position_id(id, caller.bytes@);
        if p.liquidity == 0 {
            if d0 < min0 || d1 < min1 {
                &&& post == pre
                &&& r == Err::<(u64, u64), StylusSwapError>(StylusSwapError::InsufficientAmount)
            } else {
                &&& r == Ok::<(u64, u64), StylusSwapError>((d0, d1))
                &&& exists|q: Pool, minted: int|
                    {
                        &&& 0 <= minted
                        &&& minted * minted <= d0 * d1
                        &&& d0 * d1 < (minted + 1) * (minted + 1)
                        &&& #[trigger] deposit_applied(
                            p,
                            q,
                            pos_id,
                            caller,
                            minted,
                            minted + MIN_LIQUIDITY,
                            d0 as int,
                            d1 as int,
                        )
                        &&& post.pools@ == pools.update(i, q)
                    }
            }
        } else {
            match spec_liquidity_amounts(
                d0 as int,
                d1 as int,
                min0 as int,
                min1 as int,
                p.balance0 as int,
                p.balance1 as int,
            ) {
                None => {
                    &&& post == pre
                    &&& r == Err::<(u64, u64), StylusSwapError>(
                        StylusSwapError::InsufficientAmount,
                    )
                },
                Some(pair) => {
                    let minted = min_int(
                        pair.0 * (p.liquidity as int) / (p.balance0 as int),
                        pair.1 * (p.liquidity as int) / (p.balance1 as int),
                    );
                    if minted == 0 {
                        &&& post == pre
                        &&& r == Err::<(u64, u64), StylusSwapError>(
                            StylusSwapError::InsufficientLiquidityMinted,
                        )
                    } else {
                        &&& r == Ok::<(u64, u64), StylusSwapError>(
                            (pair.0 as u64, pair.1 as u64),
                        )
                        &&& exists|q: Pool|
                            {
                                &&& #[trigger] deposit_applied(
                                    p,
                                    q,
                                    pos_id,
                                    caller,
                                    minted,
                                    minted,
                                    pair.0,
                                    pair.1,
                                )
                                &&& post.pools@ == pools.update(i, q)
                            }
                    }
                },
            }
        }
    }
}

impl StylusSwap {
    /// The machine-width conditions under which `add_liquidity` can record
    /// its outcome: every updated counter fits in 64 bits, and a pool that
    /// already has liquidity has nonzero reserves to take a ratio from.
    pub open spec fn add_liquidity_fits(
        self,
        pool_id: Bytes32,
        d0: u64,
        d1: u64,
        min0: u64,
        min1: u64,
    ) -> bool {
        let pools = self.pools@;
        let id = pool_id.bytes@;
        (has_pool(pools, id) && pool_exists(pool_at(pools, id))) ==> {
            let p = pool_at(pools, id);
            if p.liquidity == 0 {
                &&& d0 * d1 < (u64::MAX - 999) * (u64::MAX - 999)
                &&& p.balance0 + d0 <= u64::MAX
                &&& p.balance1 + d1 <= u64::MAX
            } else {
                &&& p.balance0 >= 1
                &&& p.balance1 >= 1
                &&& (match spec_liquidity_amounts(
                    d0 as int,
                    d1 as int,
                    min0 as int,
                    min1 as int,
                    p.balance0 as int,
                    p.balance1 as int,
                ) {
                    Some(pair) => {
                        let minted = min_int(
                            pair.0 * (p.liquidity as int) / (p.balance0 as int),
                            pair.1 * (p.liquidity as int) / (p.balance1 as int),
                        );
                        &&& p.liquidity + minted <= u64::MAX
                        &&& p.balance0 + pair.0 <= u64::MAX
                        &&& p.balance1 + pair.1 <= u64::MAX
                    },
                    None => true,
                })
            }
        }
    }

    /// Resolves the pair of deposit amounts that preserves the reserve ratio
    /// without exceeding either desired amount, rejecting a resolution that
    /// falls below the caller's floors.
    pub fn get_liquidity_amounts(
        &self,
        amount_0_desired: u64,
        amount_1_desired: u64,
        amount_0_min: u64,
        amount_1_min: u64,
        balance_0: u64,
        balance_1: u64,
    ) -> (r: Result<(u64, u64), StylusSwapError>)
        requires
            balance_0 >= 1,
            balance_1 >= 1,
        ensures
            (match r {
                Ok(pair) => {
                    &&& spec_liquidity_amounts(
                        amount_0_desired as int,
                        amount_1_desired as int,
                        amount_0_min as int,
                        amount_1_min as int,
                        balance_0 as int,
                        balance_1 as int,
                    ) == Some((pair.0 as int, pair.1 as int))
                    &&& pair.0 <= amount_0_desired
                    &&& pair.1 <= amount_1_desired
                },
                Err(e) => {
                    &&& spec_liquidity_amounts(
                        amount_0_desired as int,
                        amount_1_desired as int,
                        amount_0_min as int,
                        amount_1_min as int,
                        balance_0 as int,
                        balance_1 as int,
                    ) is None
                    &&& e == StylusSwapError::InsufficientAmount
                },
            }),
    {
        let a1_given_0: u128 = mul_u64(amount_0_desired, balance_1) / (balance_0 as u128);
        if a1_given_0 <= amount_1_desired as u128 {
            if a1_given_0 < amount_1_min as u128 {
                return Err(StylusSwapError::InsufficientAmount);
            }
            return Ok((amount_0_desired, a1_given_0 as u64));
        }
        let a0_given_1: u128 = mul_u64(amount_1_desired, balance_0) / (balance_1 as u128);
        proof {
            lemma_ratio_flip(
                amount_0_desired as int,
                amount_1_desired as int,
                balance_0 as int,
                balance_1 as int,
            );
        }
        if a0_given_1 < amount_0_min as u128 {
            return Err(StylusSwapError::InsufficientAmount);
        }
        Ok((a0_given_1 as u64, amount_1_desired))
    }

    /// Whether `add_liquidity` with these arguments stays within the
    /// machine-width bounds it requires of the caller.
    pub fn check_add_liquidity_fits(
        &self,
        pool_id: &Bytes32,
        amount_0_desired: u64,
        amount_1_desired: u64,
        amount_0_min: u64,
        amount_1_min: u64,
    ) -> (r: bool)
        requires
            self.wf(),
        ensures
            r == self.add_liquidity_fits(
                *pool_id,
                amount_0_desired,
                amount_1_desired,
                amount_0_min,
                amount_1_min,
            ),
    {
        let found = find_pool(&self.pools, pool_id);
        let i = match found {
            Some(i) => i,
            None => {
                return true;
            },
        };
        proof {
            lemma_pool_idx_of(self.pools@, pool_id.bytes@, i as int);
        }
        let token0_zero = addr_is_zero_exec(&self.pools[i].token0);
        let token1_zero = addr_is_zero_exec(&self.pools[i].token1);
        if token0_zero && token1_zero {
            return true;
        }
        let balance_0 = self.pools[i].balance0;
        let balance_1 = self.pools[i].balance1;
        let liquidity = self.pools[i].liquidity;
        if liquidity == 0 {
            let prod: u128 = mul_u64(amount_0_desired, amount_1_desired);
            let lim: u128 = mul_u64(u64::MAX - 999, u64::MAX - 999);
            prod < lim && (balance_0 as u128) + (amount_0_desired as u128)
                <= u64::MAX as u128 && (balance_1 as u128) + (amount_1_desired as u128)
                <= u64::MAX as u128
        } else {
            if balance_0 == 0 || balance_1 == 0 {
                return false;
            }
            match self.get_liquidity_amounts(
                amount_0_desired,
                amount_1_desired,
                amount_0_min,
                amount_1_min,
                balance_0,
                balance_1,
            ) {
                Ok((a0, a1)) => {
                    let l0: u128 = mul_u64(a0, liquidity) / (balance_0 as u128);
                    let l1: u128 = mul_u64(a1, liquidity) / (balance_1 as u128);
                    let minted: u128 = if l0 < l1 {
                        l0
                    } else {
                        l1
                    };
                    minted <= (u64::MAX as u128) - (liquidity as u128) && (balance_0 as u128) + (
                    a0 as u128) <= u64::MAX as u128 && (balance_1 as u128) + (a1 as u128)
                        <= u64::MAX as u128
                },
                Err(_) => true,
            }
        }
    }

    /// Deposits into a pool: resolves the deposited pair, mints liquidity to
    /// the caller's position (the first deposit mints the floor square root
    /// of the deposited product and locks `MIN_LIQUIDITY` units into the pool
    /// besides), and grows the reserves. Returns the amounts the host must
    /// collect from the depositor.
    pub fn add_liquidity(
        &mut self,
        pool_id: Bytes32,
        amount_0_desired: u64,
        amount_1_desired: u64,
        amount_0_min: u64,
        amount_1_min: u64,
        caller: Address,
    ) -> (r: Result<(u64, u64), StylusSwapError>)
        requires
            old(self).wf(),
            old(self).add_liquidity_fits(
                pool_id,
                amount_0_desired,
                amount_1_desired,
                amount_0_min,
                amount_1_min,
            ),
        ensures
            final(self).wf(),
            add_liquidity_post(
                *old(self),
                *final(self),
                r,
                pool_id,
                amount_0_desired,
                amount_1_desired,
                amount_0_min,
                amount_1_min,
                caller,
            ),
    {
        let ghost pools0 = self.pools@;
        let ghost id = pool_id.bytes@;
        let found = find_pool(&self.pools, &pool_id);
        let i = match found {
            Some(i) => i,
            None => {
                return Err(StylusSwapError::PoolDoesNotExist { pool_id });
            },
        };
        proof {
            lemma_pool_idx_of(pools0, id, i as int);
        }
        let token0_zero = addr_is_zero_exec(&self.pools[i].token0);
        let token1_zero = addr_is_zero_exec(&self.pools[i].token1);
        if token0_zero && token1_zero {
            return Err(StylusSwapError::PoolDoesNotExist { pool_id });
        }
        let balance_0 = self.pools[i].balance0;
        let balance_1 = self.pools[i].balance1;
        let liquidity = self.pools[i].liquidity;
        let position_id = self.get_position_id(pool_id, caller);
        let ghost pos_id = position_id.bytes@;
        let ghost p0 = pools0[i as int];
        proof {
            assert(pool_wf(p0));
            if has_position(p0.positions@, pos_id) {
                assert(0 <= position_idx(p0.positions@, pos_id) < p0.positions@.len());
                lemma_sum_element(p0.positions@, position_idx(p0.positions@, pos_id));
            }
        }
        if liquidity == 0 {
            if amount_0_desired < amount_0_min || amount_1_desired < amount_1_min {
                return Err(StylusSwapError::InsufficientAmount);
            }
            let prod: u128 = mul_u64(amount_0_desired, amount_1_desired);
            let minted: u64 = integer_sqrt(prod);
            proof {
                assert(minted as int <= 0xffffffffffffffffint - 1000) by (nonlinear_arith)
                    requires
                        (minted as int) * (minted as int) <= prod as int,
                        (prod as int) < (0xffffffffffffffffint - 999) * (0xffffffffffffffffint
                            - 999),
                        0 <= minted as int,
                ;
            }
            let pool_minted = minted + MIN_LIQUIDITY;
            let p = &mut self.pools[i];
            p.liquidity = liquidity + pool_minted;
            p.balance0 = balance_0 + amount_0_desired;
            p.balance1 = balance_1 + amount_1_desired;
            credit_position(&mut p.positions, position_id, caller, minted);
            proof {
                let q = self.pools@[i as int];
                assert(deposit_applied(
                    p0,
                    q,
                    pos_id,
                    caller,
                    minted as int,
                    minted as int + MIN_LIQUIDITY,
                    amount_0_desired as int,
                    amount_1_desired as int,
                ));
                assert(self.pools@ == pools0.update(i as int, q));
                lemma_pool_idx_of(self.pools@, id, i as int);
            }
            Ok((amount_0_desired, amount_1_desired))
        } else {
            let resolved = self.get_liquidity_amounts(
                amount_0_desired,
                amount_1_desired,
                amount_0_min,
                amount_1_min,
                balance_0,
                balance_1,
            );
            let (amount_0, amount_1) = match resolved {
                Ok(pair) => pair,
                Err(e) => {
                    return Err(e);
                },
            };
            let l0: u128 = mul_u64(amount_0, liquidity) / (balance_0 as u128);
            let l1: u128 = mul_u64(amount_1, liquidity) / (balance_1 as u128);
            let minted_wide: u128 = if l0 < l1 {
                l0
            } else {
                l1
            };
            if minted_wide == 0 {
                return Err(StylusSwapError::InsufficientLiquidityMinted);
            }
            let minted: u64 = minted_wide as u64;
            let p = &mut self.pools[i];
            p.liquidity = liquidity + minted;
            p.balance0 = balance_0 + amount_0;
            p.balance1 = balance_1 + amount_1;
            credit_position(&mut p.positions, position_id, caller, minted);
            proof {
                let q = self.pools@[i as int];
                assert(deposit_applied(
                    p0,
                    q,
                    pos_id,
                    caller,
                    minted as int,
                    minted as int,
                    amount_0 as int,
                    amount_1 as int,
                ));
                assert(self.pools@ == pools0.update(i as int, q));
                lemma_pool_idx_of(self.pools@, id, i as int);
            }
            Ok((amount_0, amount_1))
        }
    }
}

/// One pool after a withdrawal: reserves and total liquidity shrunk by the
/// removed share, and the owner's position debited.
pub open spec fn withdrawal_applied(
    p: Pool,
    q: Pool,
    pos_id: Seq<u8>,
    removed: int,
    a0: int,
    a1: int,
) -> bool {
    &&& q.id == p.id
    &&& q.token0 == p.token0
    &&& q.token1 == p.token1
    &&& q.fee == p.fee
    &&& q.liquidity == p.liquidity - removed
    &&& q.balance0 == p.balance0 - a0
    &&& q.balance1 == p.balance1 - a1
    &&& has_position(p.positions@, pos_id)
    &&& q.positions@ == p.positions@.update(
        position_idx(p.positions@, pos_id),
        (Position {
            liquidity: (position_at(p.positions@, pos_id).liquidity - removed) as u64,
            ..position_at(p.positions@, pos_id)
        }),
    )
}

/// Exactly what `remove_liquidity` returns and how it reshapes the registry.
pub open spec fn remove_liquidity_post(
    pre: StylusSwap,
    post: StylusSwap,
    r: Result<(u64, u64), StylusSwapError>,
    pool_id: Bytes32,
    liquidity_to_remove: u64,
    caller: Address,
) -> bool {
    let pools = pre.pools@;
    let id = pool_id.bytes@;
    if !(has_pool(pools, id) && pool_exists(pool_at(pools, id))) {
        &&& post == pre
        &&& (r matches Err(e) && e matches StylusSwapError::PoolDoesNotExist { pool_id: q } && q
            == pool_id)
    } else {
        let i = pool_idx(pools, id);
        let p = pools[i];
        let pos_id = spec_position_id(id, caller.bytes@);
        let user = position_liquidity(p.positions@, pos_id);
        if liquidity_to_remove > user || liquidity_to_remove == 0 || p.liquidity == 0 {
            &&& post == pre
            &&& r == Err::<(u64, u64), StylusSwapError>(
                StylusSwapError::InsufficientLiquidityOwned,
            )
        } else {
            let a0 = p.balance0 * liquidity_to_remove / (p.liquidity as int);
            let a1 = p.balance1 * liquidity_to_remove / (p.liquidity as int);
            if a0 == 0 || a1 == 0 {
                &&& post == pre
                &&& r == Err::<(u64, u64), StylusSwapError>(
                    StylusSwapError::InsufficientLiquidityOwned,
                )
            } else {
                &&& r == Ok::<(u64, u64), StylusSwapError>((a0 as u64, a1 as u64))
                &&& exists|q: Pool|
                    {
                        &&& #[trigger] withdrawal_applied(
                            p,
                            q,
                            pos_id,
                            liquidity_to_remove as int,
                            a0,
                            a1,
                        )
                        &&& post.pools@ == pools.update(i, q)
                    }
            }
        }
    }
}

/// The output-side reserve the exact constant product would leave behind.
/// It is rounded up: a floored quotient would overstate the output and let a
/// run of dust swaps shave the reserve product below its pre-swap value,
/// which the data model forbids.
pub open spec fn spec_swap_quotient(b_in: int, b_out: int, input: int) -> int {
    let k = b_in * b_out;
    let d = b_in + input;
    if k % d == 0 {
        k / d
    } else {
        k / d + 1
    }
}

/// The gross output of a swap, before the fee.
pub open spec fn spec_gross_output(b_in: int, b_out: int, input: int) -> int {
    b_out - spec_swap_quotient(b_in, b_out, input)
}

/// The fee deducted from the gross output and retained in the reserve.
pub open spec fn spec_fee_amount(gross: int, fee: int) -> int {
    gross * fee / 10000
}

/// The net output a swap pays out.
pub open spec fn spec_net_output(b_in: int, b_out: int, input: int, fee: int) -> int {
    spec_gross_output(b_in, b_out, input) - spec_fee_amount(
        spec_gross_output(b_in, b_out, input),
        fee,
    )
}

/// One pool after a swap: the input-side reserve grown by the input, the
/// output-side reserve shrunk by the net output; liquidity and positions
/// untouched.
pub open spec fn swap_applied(p: Pool, q: Pool, input: int, net: int, zero_for_one: bool) -> bool {
    &&& q.id == p.id
    &&& q.token0 == p.token0
    &&& q.token1 == p.token1
    &&& q.fee == p.fee
    &&& q.liquidity == p.liquidity
    &&& q.positions == p.positions
    &&& (zero_for_one ==> q.balance0 == p.balance0 + input && q.balance1 == p.balance1 - net)
    &&& (!zero_for_one ==> q.balance1 == p.balance1 + input && q.balance0 == p.balance0 - net)
}


/// Dividing a bound of a product: when `x <= d * c`, the quotient of `x` by
/// `d`, rounded up, stays at or below `c`.
proof fn lemma_ceil_div_le(x: int, d: int, c: int)
    requires
        0 <= x,
        1 <= d,
        0 <= c,
        x <= d * c,
    ensures
        x % d == 0 ==> x / d <= c,
        x % d != 0 ==> x / d + 1 <= c,
{
    vstd::arithmetic::div_mod::lemma_fundamental_div_mod(x, d);
    vstd::arithmetic::div_mod::lemma_mod_bound(x, d);
    if x % d == 0 {
        vstd::arithmetic::div_mod::lemma_div_is_ordered(x, d * c, d);
        assert(d * c == c * d) by (nonlinear_arith);
        vstd::arithmetic::div_mod::lemma_div_multiples_vanish(c, d);
    } else {
        assert(x != d * c) by {
            if x == d * c {
                assert((d * c) % d == 0) by {
                    vstd::arithmetic::div_mod::lemma_mod_multiples_basic(c, d);
                }
            }
        }
        assert(x <= d * c - 1);
        assert(d * c - 1 == (c - 1) * d + (d - 1)) by (nonlinear_arith);
        vstd::arithmetic::div_mod::lemma_fundamental_div_mod_converse(d * c - 1, d, c - 1, d - 1);
        vstd::arithmetic::div_mod::lemma_div_is_ordered(x, d * c - 1, d);
    }
}

/// Law: a swap never shrinks the reserve product. With the rounded-up
/// quotient the recorded output side keeps at least the exact constant
/// product, and the product strictly grows whenever the quotient had to
/// round (the division left a remainder) or the retained fee is positive.
/// With the specified floored fee deduction, a fee tier above zero alone
/// does not force strict growth: an exactly dividing trade whose fee floors
/// to zero leaves the product unchanged.
pub proof fn lemma_swap_preserves_product(b_in: int, b_out: int, input: int, fee: int)
    requires
        0 <= b_in,
        0 <= b_out,
        1 <= input,
        0 <= fee <= 10000,
    ensures
        (b_in + input) * (b_out - spec_net_output(b_in, b_out, input, fee)) >= b_in * b_out,
        ((b_in * b_out) % (b_in + input) != 0 || spec_fee_amount(
            spec_gross_output(b_in, b_out, input),
            fee,
        ) > 0) ==> (b_in + input) * (b_out - spec_net_output(b_in, b_out, input, fee)) > b_in
            * b_out,
{
    let k = b_in * b_out;
    let d = b_in + input;
    let quot = spec_swap_quotient(b_in, b_out, input);
    let gross = spec_gross_output(b_in, b_out, input);
    let fees = spec_fee_amount(gross, fee);
    assert(0 <= k && k <= d * b_out) by (nonlinear_arith)
        requires
            0 <= b_in,
            0 <= b_out,
            0 <= input,
            k == b_in * b_out,
            d == b_in + input,
    ;
    lemma_ceil_div_le(k, d, b_out);
    vstd::arithmetic::div_mod::lemma_fundamental_div_mod(k, d);
    vstd::arithmetic::div_mod::lemma_mod_bound(k, d);
    assert(d * (k / d + 1) == d * (k / d) + d) by (nonlinear_arith);
    assert(d * quot >= k);
    assert(k % d != 0 ==> d * quot > k);
    assert(0 <= gross);
    assert(0 <= fees) by {
        vstd::arithmetic::div_mod::lemma_div_pos_is_pos(gross * fee, 10000);
        assert(0 <= gross * fee) by (nonlinear_arith)
            requires
                0 <= gross,
                0 <= fee,
        ;
    }
    assert(b_out - spec_net_output(b_in, b_out, input, fee) == quot + fees);
    assert(d * (quot + fees) == d * quot + d * fees) by (nonlinear_arith);
    assert(d * fees >= 0 && (fees > 0 ==> d * fees >= d)) by (nonlinear_arith)
        requires
            1 <= d,
            0 <= fees,
    ;
}

/// Law, on pool states: a swap recorded by `swap_applied` with the engine's
/// pricing never shrinks `balance0 * balance1`, and strictly grows it
/// whenever the constant-product division left a remainder or the retained
/// fee is positive.
pub proof fn lemma_swap_applied_preserves_product(p: Pool, q: Pool, input: int, zero_for_one: bool)
    requires
        1 <= input,
        p.fee <= 10000,
        ({
            let b_in = if zero_for_one {
                p.balance0 as int
            } else {
                p.balance1 as int
            };
            let b_out = if zero_for_one {
                p.balance1 as int
            } else {
                p.balance0 as int
            };
            swap_applied(
                p,
                q,
                input,
                spec_net_output(b_in, b_out, input, p.fee as int),
                zero_for_one,
            )
        }),
    ensures
        q.balance0 * q.balance1 >= p.balance0 * p.balance1,
        ({
            let b_in = if zero_for_one {
                p.balance0 as int
            } else {
                p.balance1 as int
            };
            let b_out = if zero_for_one {
                p.balance1 as int
            } else {
                p.balance0 as int
            };
            ((b_in * b_out) % (b_in + input) != 0 || spec_fee_amount(
                spec_gross_output(b_in, b_out, input),
                p.fee as int,
            ) > 0) ==> q.balance0 * q.balance1 > p.balance0 * p.balance1
        }),
{
    let b_in = if zero_for_one {
        p.balance0 as int
    } else {
        p.balance1 as int
    };
    let b_out = if zero_for_one {
        p.balance1 as int
    } else {
        p.balance0 as int
    };
    let net = spec_net_output(b_in, b_out, input, p.fee as int);
    lemma_swap_preserves_product(b_in, b_out, input, p.fee as int);
    assert(b_in * b_out == p.balance0 * p.balance1) by (nonlinear_arith)
        requires
            (b_in == p.balance0 && b_out == p.balance1) || (b_in == p.balance1 && b_out
                == p.balance0),
    ;
    assert((b_in + input) * (b_out - net) == q.balance0 * q.balance1) by (nonlinear_arith)
        requires
            (q.balance0 == b_in + input && q.balance1 == b_out - net) || (q.balance1 == b_in
                + input && q.balance0 == b_out - net),
    ;
}

impl StylusSwap {
    /// The machine-width conditions under which `swap` can record its
    /// outcome: the fee tier does not exceed the full 10000 basis points, and
    /// the grown input-side reserve fits in 64 bits.
    pub open spec fn swap_fits(self, pool_id: Bytes32, input_amount: u64, zero_for_one: bool) -> bool {
        let pools = self.pools@;
        let id = pool_id.bytes@;
        (has_pool(pools, id) && pool_exists(pool_at(pools, id))) ==> {
            let p = pool_at(pools, id);
            let b_in = if zero_for_one {
                p.balance0
            } else {
                p.balance1
            };
            &&& p.fee <= 10000
            &&& b_in + input_amount <= u64::MAX
        }
    }

    /// Whether `swap` with these arguments stays within the machine-width
    /// bounds it requires of the caller.
    pub fn check_swap_fits(&self, pool_id: &Bytes32, input_amount: u64, zero_for_one: bool) -> (r:
        bool)
        requires
            self.wf(),
        ensures
            r == self.swap_fits(*pool_id, input_amount, zero_for_one),
    {
        let found = find_pool(&self.pools, pool_id);
        let i = match found {
            Some(i) => i,
            None => {
                return true;
            },
        };
        proof {
            lemma_pool_idx_of(self.pools@, pool_id.bytes@, i as int);
        }
        let token0_zero = addr_is_zero_exec(&self.pools[i].token0);
        let token1_zero = addr_is_zero_exec(&self.pools[i].token1);
        if token0_zero && token1_zero {
            return true;
        }
        let b_in = if zero_for_one {
            self.pools[i].balance0
        } else {
            self.pools[i].balance1
        };
        self.pools[i].fee <= 10000 && (b_in as u128) + (input_amount as u128) <= u64::MAX as u128
    }

    /// Withdraws a share of the reserves: debits the caller's position and
    /// the pool's liquidity, pays out the proportional slice of each reserve.
    /// Returns the amounts the host must pay out to the caller.
    pub fn remove_liquidity(
        &mut self,
        pool_id: Bytes32,
        liquidity_to_remove: u64,
        caller: Address,
    ) -> (r: Result<(u64, u64), StylusSwapError>)
        requires
            old(self).wf(),
        ensures
            final(self).wf(),
            remove_liquidity_post(
                *old(self),
                *final(self),
                r,
                pool_id,
                liquidity_to_remove,
                caller,
            ),
    {
        let ghost pools0 = self.pools@;
        let ghost id = pool_id.bytes@;
        let found = find_pool(&self.pools, &pool_id);
        let i = match found {
            Some(i) => i,
            None => {
                return Err(StylusSwapError::PoolDoesNotExist { pool_id });
            },
        };
        proof {
            lemma_pool_idx_of(pools0, id, i as int);
        }
        let token0_zero = addr_is_zero_exec(&self.pools[i].token0);
        let token1_zero = addr_is_zero_exec(&self.pools[i].token1);
        if token0_zero && token1_zero {
            return Err(StylusSwapError::PoolDoesNotExist { pool_id });
        }
        let balance_0 = self.pools[i].balance0;
        let balance_1 = self.pools[i].balance1;
        let pool_liquidity = self.pools[i].liquidity;
        let position_id = self.get_position_id(pool_id, caller);
        let ghost pos_id = position_id.bytes@;
        let ghost p0 = pools0[i as int];
        let found_position = find_position(&self.pools[i].positions, &position_id);
        let user_liquidity = match found_position {
            Some(k) => {
                proof {
                    lemma_position_idx_of(p0.positions@, pos_id, k as int);
                }
                self.pools[i].positions[k].liquidity
            },
            None => 0,
        };
        if liquidity_to_remove > user_liquidity {
            return Err(StylusSwapError::InsufficientLiquidityOwned);
        }
        if liquidity_to_remove == 0 || pool_liquidity == 0 {
            return Err(StylusSwapError::InsufficientLiquidityOwned);
        }
        proof {
            assert(pool_wf(p0));
            let ki = position_idx(p0.positions@, pos_id);
            assert(0 <= ki < p0.positions@.len());
            lemma_sum_element(p0.positions@, ki);
            lemma_mul_div_le(balance_0 as int, liquidity_to_remove as int, pool_liquidity as int);
            lemma_mul_div_le(balance_1 as int, liquidity_to_remove as int, pool_liquidity as int);
        }
        let a0w: u128 = mul_u64(balance_0, liquidity_to_remove) / (pool_liquidity as u128);
        let a1w: u128 = mul_u64(balance_1, liquidity_to_remove) / (pool_liquidity as u128);
        if a0w == 0 || a1w == 0 {
            return Err(StylusSwapError::InsufficientLiquidityOwned);
        }
        let amount_0 = a0w as u64;
        let amount_1 = a1w as u64;
        let k = match found_position {
            Some(k) => k,
            None => {
                proof {
                    assert(false);
                }
                return Err(StylusSwapError::InsufficientLiquidityOwned);
            },
        };
        let p = &mut self.pools[i];
        p.liquidity = pool_liquidity - liquidity_to_remove;
        p.balance0 = balance_0 - amount_0;
        p.balance1 = balance_1 - amount_1;
        let q = &mut p.positions[k];
        q.liquidity = user_liquidity - liquidity_to_remove;
        proof {
            let pq = self.pools@[i as int];
            assert(pq.positions@ == p0.positions@.update(
                k as int,
                (Position {
                    liquidity: (position_at(p0.positions@, pos_id).liquidity
                        - liquidity_to_remove) as u64,
                    ..position_at(p0.positions@, pos_id)
                }),
            ));
            lemma_sum_update(p0.positions@, k as int, pq.positions@[k as int]);
            assert forall|m: int, n: int| 0 <= m < n < pq.positions@.len() implies pq.positions@[
                m
            ].id.bytes@ != pq.positions@[n].id.bytes@ by {
                assert(pq.positions@[m].id == p0.positions@[m].id);
                assert(pq.positions@[n].id == p0.positions@[n].id);
            }
            assert(withdrawal_applied(
                p0,
                pq,
                pos_id,
                liquidity_to_remove as int,
                a0w as int,
                a1w as int,
            ));
            assert(self.pools@ == pools0.update(i as int, pq));
        }
        Ok((amount_0, amount_1))
    }

    /// Swaps an exact input of one pooled asset for the other at the
    /// constant-product price, net of the fee, which stays in the output-side
    /// reserve. Returns the net output the host must pay out.
    ///
    /// The constant-product quotient is rounded up, so a successful swap
    /// never decreases `balance0 * balance1` (see
    /// `lemma_swap_applied_preserves_product`); a floored quotient would let
    /// repeated dust swaps shave the reserves below the invariant.
    ///
    /// A swap names a pool, so one aimed at an identifier no pool carries
    /// fails `PoolDoesNotExist`; the registry never prices or mutates a
    /// record it does not hold, whatever the output floor.
    #[verifier::rlimit(100)]
    #[verifier::spinoff_prover]
    pub fn swap(
        &mut self,
        pool_id: Bytes32,
        input_amount: u64,
        min_output_amount: u64,
        zero_for_one: bool,
    ) -> (r: Result<u64, StylusSwapError>)
        requires
            old(self).wf(),
            old(self).swap_fits(pool_id, input_amount, zero_for_one),
        ensures
            final(self).wf(),
            input_amount == 0 ==> *final(self) == *old(self) && r == Err::<
                u64,
                StylusSwapError,
            >(StylusSwapError::InsufficientAmount),
            ({
                let pools = old(self).pools@;
                let id = pool_id.bytes@;
                input_amount != 0 && !(has_pool(pools, id) && pool_exists(pool_at(pools, id)))
                    ==> *final(self) == *old(self) && (r matches Err(e) && e
                    matches StylusSwapError::PoolDoesNotExist { pool_id: q } && q == pool_id)
            }),
            ({
                let pools = old(self).pools@;
                let id = pool_id.bytes@;
                let p = pool_at(pools, id);
                let b_in = if zero_for_one {
                    p.balance0 as int
                } else {
                    p.balance1 as int
                };
                let b_out = if zero_for_one {
                    p.balance1 as int
                } else {
                    p.balance0 as int
                };
                let net = spec_net_output(b_in, b_out, input_amount as int, p.fee as int);
                input_amount != 0 && has_pool(pools, id) && pool_exists(pool_at(pools, id)) && net
                    < min_output_amount ==> *final(self) == *old(self) && r == Err::<
                    u64,
                    StylusSwapError,
                >(StylusSwapError::TooMuchSlippage)
            }),
            ({
                let pools = old(self).pools@;
                let id = pool_id.bytes@;
                let p = pool_at(pools, id);
                let b_in = if zero_for_one {
                    p.balance0 as int
                } else {
                    p.balance1 as int
                };
                let b_out = if zero_for_one {
                    p.balance1 as int
                } else {
                    p.balance0 as int
                };
                let net = spec_net_output(b_in, b_out, input_amount as int, p.fee as int);
                input_amount != 0 && has_pool(pools, id) && pool_exists(pool_at(pools, id)) && net
                    >= min_output_amount ==> r == Ok::<u64, StylusSwapError>(net as u64)
            }),
            ({
                let pools = old(self).pools@;
                let id = pool_id.bytes@;
                let p = pool_at(pools, id);
                let b_in = if zero_for_one {
                    p.balance0 as int
                } else {
                    p.balance1 as int
                };
                let b_out = if zero_for_one {
                    p.balance1 as int
                } else {
                    p.balance0 as int
                };
                let net = spec_net_output(b_in, b_out, input_amount as int, p.fee as int);
                input_amount != 0 && has_pool(pools, id) && pool_exists(pool_at(pools, id)) && net
                    >= min_output_amount ==> has_pool(final(self).pools@, id) && swap_applied(
                    p,
                    pool_at(final(self).pools@, id),
                    input_amount as int,
                    net,
                    zero_for_one,
                ) && final(self).pools@ == pools.update(
                    pool_idx(pools, id),
                    pool_at(final(self).pools@, id),
                ) && pool_at(final(self).pools@, id).balance0 * pool_at(
                    final(self).pools@,
                    id,
                ).balance1 >= p.balance0 * p.balance1
            }),
    {
        if input_amount == 0 {
            return Err(StylusSwapError::InsufficientAmount);
        }
        let ghost pools0 = self.pools@;
        let ghost id = pool_id.bytes@;
        let found = find_pool(&self.pools, &pool_id);
        let i = match found {
            Some(i) => i,
            None => {
                return Err(StylusSwapError::PoolDoesNotExist { pool_id });
            },
        };
        proof {
            lemma_pool_idx_of(pools0, id, i as int);
        }
        let token0_zero = addr_is_zero_exec(&self.pools[i].token0);
        let token1_zero = addr_is_zero_exec(&self.pools[i].token1);
        if token0_zero && token1_zero {
            return Err(StylusSwapError::PoolDoesNotExist { pool_id });
        }
        let balance_0 = self.pools[i].balance0;
        let balance_1 = self.pools[i].balance1;
        let fee = self.pools[i].fee;
        let ghost p0 = pools0[i as int];
        let b_in = if zero_for_one {
            balance_0
        } else {
            balance_1
        };
        let b_out = if zero_for_one {
            balance_1
        } else {
            balance_0
        };
        let k: u128 = mul_u64(balance_0, balance_1);
        let denom: u128 = (b_in as u128) + (input_amount as u128);
        let quot_floor: u128 = k / denom;
        let rem: u128 = k % denom;
        proof {
            assert((balance_0 as int) * (balance_1 as int) == (b_in as int) * (b_out as int))
                by (nonlinear_arith)
                requires
                    (b_in == balance_0 && b_out == balance_1) || (b_in == balance_1 && b_out
                        == balance_0),
            ;
            assert(k as int <= (denom as int) * (b_out as int)) by (nonlinear_arith)
                requires
                    k as int == (b_in as int) * (b_out as int),
                    b_in as int <= denom as int,
                    0 <= b_out as int,
            ;
            lemma_ceil_div_le(k as int, denom as int, b_out as int);
        }
        let quot: u64 = if rem == 0 {
            quot_floor as u64
        } else {
            (quot_floor as u64) + 1
        };
        let gross: u64 = b_out - quot;
        let fees_wide: u128 = mul_u64(gross, fee as u64) / 10000;
        proof {
            lemma_mul_div_le(gross as int, fee as int, 10000);
        }
        let fees = fees_wide as u64;
        let net: u64 = gross - fees;
        if (net as u128) < (min_output_amount as u128) {
            return Err(StylusSwapError::TooMuchSlippage);
        }
        let p = &mut self.pools[i];
        if zero_for_one {
            p.balance0 = balance_0 + input_amount;
            p.balance1 = balance_1 - net;
        } else {
            p.balance1 = balance_1 + input_amount;
            p.balance0 = balance_0 - net;
        }
        proof {
            let pq = self.pools@[i as int];
            let sb_in = if zero_for_one {
                p0.balance0 as int
            } else {
                p0.balance1 as int
            };
            let sb_out = if zero_for_one {
                p0.balance1 as int
            } else {
                p0.balance0 as int
            };
            let neti = spec_net_output(sb_in, sb_out, input_amount as int, p0.fee as int);
            assert(sb_in == b_in as int);
            assert(sb_out == b_out as int);
            assert(spec_swap_quotient(sb_in, sb_out, input_amount as int) == quot as int);
            assert(spec_gross_output(sb_in, sb_out, input_amount as int) == gross as int);
            assert(neti == net as int);
            assert(!(neti < min_output_amount));
            assert(swap_applied(p0, pq, input_amount as int, neti, zero_for_one));
            assert(self.pools@ == pools0.update(pool_idx(pools0, id), pq));
            lemma_swap_applied_preserves_product(p0, pq, input_amount as int, zero_for_one);
            lemma_pool_idx_of(self.pools@, id, i as int);
            assert(pool_at(self.pools@, id) == pq);
        }
        Ok(net)
    }
}

} // verus!
