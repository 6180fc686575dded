//! Finding factories by scanning logs for the pool-creation events of known factory kinds.

use vstd::prelude::*;
use crate::error::AMMError;
use crate::primitives::{Address, Log, event_topic, keccak_word};
use crate::u256::U256;
use crate::uniswap_v2::UniswapV2Factory;

verus! {

/// A kind of factory that discovery knows the creation event of.
#[derive(Clone, Copy, Debug, PartialEq, Eq, Structural)]
pub enum DiscoverableFactory {
    UniswapV2Factory,
    UniswapV3Factory,
    BalancerV2Factory,
}

/// The signature of the event a factory of this kind emits for each pool it creates.
pub open spec fn creation_signature(kind: DiscoverableFactory) -> Seq<char> {
    match kind {
        DiscoverableFactory::UniswapV2Factory => "PairCreated(address,address,address,uint256)"@,
        DiscoverableFactory::UniswapV3Factory => "PoolCreated(address,address,uint24,int24,address)"@,
        DiscoverableFactory::BalancerV2Factory => "LOG_NEW_POOL(address,address)"@,
    }
}

impl DiscoverableFactory {
    pub fn discovery_event_signature(&self) -> (r: U256)
        ensures
            r.value() == keccak_word(creation_signature(*self)),
    {
        match self {
            DiscoverableFactory::UniswapV2Factory => event_topic(
                "PairCreated(address,address,address,uint256)",
            ),
            DiscoverableFactory::UniswapV3Factory => event_topic(
                "PoolCreated(address,address,uint24,int24,address)",
            ),
            DiscoverableFactory::BalancerV2Factory => event_topic("LOG_NEW_POOL(address,address)"),
        }
    }
}

/// A factory found by discovery: where it is, its inferred kind, the block of its first
/// creation log, and how many pools it is credited with.
#[derive(Clone, Copy, Debug, PartialEq, Eq, Structural)]
pub struct FactoryCandidate {
    pub address: Address,
    pub kind: DiscoverableFactory,
    pub creation_block: u64,
    pub count: u64,
}

/// The first of `kinds` whose creation event has topic `topic`.
pub open spec fn kind_for_topic(kinds: Seq<DiscoverableFactory>, topic: nat) -> Option<
    DiscoverableFactory,
>
    decreases kinds.len(),
{
    if kinds.len() == 0 {
        None
    } else if keccak_word(creation_signature(kinds[0])) == topic {
        Some(kinds[0])
    } else {
        kind_for_topic(kinds.drop_first(), topic)
    }
}

/// No two candidates share an address.
pub open spec fn distinct_addresses(cands: Seq<FactoryCandidate>) -> bool {
    forall|i: int, j: int|
        0 <= i < j < cands.len() ==> #[trigger] cands[i].address != #[trigger] cands[j].address
}

/// The index of the candidate at `address`, or -1.
pub open spec fn index_of(cands: Seq<FactoryCandidate>, address: Address) -> int {
    if exists|i: int| 0 <= i < cands.len() && cands[i].address == address {
        choose|i: int| 0 <= i < cands.len() && cands[i].address == address
    } else {
        -1
    }
}

/// One log read during discovery: a log from a known candidate credits it with one more pool;
/// the first log from an address makes it a candidate with no pools, its kind read from the
/// log's first topic and its creation block from the log.
pub open spec fn record_log(
    cands: Seq<FactoryCandidate>,
    log: Log,
    kinds: Seq<DiscoverableFactory>,
) -> Result<Seq<FactoryCandidate>, AMMError> {
    let i = index_of(cands, log.address);
    if i >= 0 {
        Ok(cands.update(i, FactoryCandidate { count: (cands[i].count + 1) as u64, ..cands[i] }))
    } else if log.topics.len() == 0 {
        Err(AMMError::UnsupportedFactoryKind)
    } else {
        match kind_for_topic(kinds, log.topics[0].value()) {
            None => Err(AMMError::UnsupportedFactoryKind),
            Some(kind) => match log.block_number {
                None => Err(AMMError::BlockNumberNotFound),
                Some(block) => Ok(
                    cands.push(
                        FactoryCandidate {
                            address: log.address,
                            kind,
                            creation_block: block,
                            count: 0,
                        },
                    ),
                ),
            },
        }
    }
}

/// The candidates that a run of logs yields, read in order; the first failing log's error.
pub open spec fn identified(logs: Seq<Log>, kinds: Seq<DiscoverableFactory>) -> Result<
    Seq<FactoryCandidate>,
    AMMError,
>
    decreases logs.len(),
{
    if logs.len() == 0 {
        Ok(Seq::empty())
    } else {
        match identified(logs.drop_last(), kinds) {
            Err(e) => Err(e),
            Ok(cands) => record_log(cands, logs.last(), kinds),
        }
    }
}

/// How many of `logs` come from `address`.
pub open spec fn logs_from(logs: Seq<Log>, address: Address) -> nat {
    logs.filter(|l: Log| l.address == address).len()
}

proof fn lemma_logs_from_step(logs: Seq<Log>, address: Address)
    requires
        logs.len() > 0,
    ensures
        logs_from(logs, address) == logs_from(logs.drop_last(), address) + (if logs.last().address
            == address {
            1nat
        } else {
            0nat
        }),
{
    reveal(Seq::filter);
}

proof fn lemma_logs_from_none(logs: Seq<Log>, address: Address)
    requires
        forall|j: int| 0 <= j < logs.len() ==> #[trigger] logs[j].address != address,
    ensures
        logs_from(logs, address) == 0,
    decreases logs.len(),
{
    if logs.len() > 0 {
        lemma_logs_from_step(logs, address);
        let rest = logs.drop_last();
        assert forall|j: int| 0 <= j < rest.len() implies #[trigger] rest[j].address != address by {
            assert(rest[j] == logs[j]);
        }
        lemma_logs_from_none(rest, address);
    }
}

proof fn lemma_logs_from_bound(logs: Seq<Log>, address: Address)
    ensures
        logs_from(logs, address) <= logs.len(),
    decreases logs.len(),
{
    if logs.len() > 0 {
        lemma_logs_from_step(logs, address);
        lemma_logs_from_bound(logs.drop_last(), address);
    }
}

/// Reading a run of logs credits each factory with its logs less one: its first log makes it a
/// candidate, each later one is one more pool. Every address that logged becomes a candidate,
/// and no two candidates share an address.
pub proof fn lemma_identified_counts(logs: Seq<Log>, kinds: Seq<DiscoverableFactory>)
    requires
        logs.len() <= u64::MAX,
    ensures
        identified(logs, kinds) matches Ok(c) ==> {
            &&& distinct_addresses(c)
            &&& forall|i: int|
                0 <= i < c.len() ==> #[trigger] c[i].count + 1 == logs_from(logs, c[i].address)
            &&& forall|j: int|
                0 <= j < logs.len() ==> exists|i: int|
                    0 <= i < c.len() && #[trigger] c[i].address == #[trigger] logs[j].address
        },
    decreases logs.len(),
{
    if logs.len() > 0 {
        let rest = logs.drop_last();
        let last = logs.last();
        lemma_identified_counts(rest, kinds);
        if let Ok(prev) = identified(rest, kinds) {
            if let Ok(c) = identified(logs, kinds) {
                assert forall|i: int| 0 <= i < prev.len() implies #[trigger] logs_from(
                    logs,
                    prev[i].address,
                ) == logs_from(rest, prev[i].address) + (if last.address == prev[i].address {
                    1nat
                } else {
                    0nat
                }) by {
                    lemma_logs_from_step(logs, prev[i].address);
                }
                let k = index_of(prev, last.address);
                if k >= 0 {
                    lemma_logs_from_bound(rest, prev[k].address);
                    assert(c == prev.update(k, FactoryCandidate { count: (prev[k].count + 1) as u64, ..prev[k] }));
                    assert forall|i: int| 0 <= i < c.len() implies #[trigger] c[i].count + 1
                        == logs_from(logs, c[i].address) by {
                        if i != k {
                            assert(prev[i].address != prev[k].address);
                        }
                    }
                    assert forall|j: int| 0 <= j < logs.len() implies exists|i: int|
                        0 <= i < c.len() && #[trigger] c[i].address == #[trigger] logs[j].address by {
                        if j < rest.len() {
                            assert(rest[j] == logs[j]);
                            let i = choose|i: int| 0 <= i < prev.len() && prev[i].address == rest[j].address;
                            assert(c[i].address == logs[j].address);
                        } else {
                            assert(c[k].address == logs[j].address);
                        }
                    }
                    assert forall|a: int, b: int| 0 <= a < b < c.len() implies #[trigger] c[a].address
                        != #[trigger] c[b].address by {
                        assert(prev[a].address != prev[b].address);
                    }
                } else {
                    assert(!(exists|i: int| 0 <= i < prev.len() && prev[i].address == last.address));
                    assert forall|j: int| 0 <= j < rest.len() implies #[trigger] rest[j].address
                        != last.address by {
                        let i = choose|i: int| 0 <= i < prev.len() && prev[i].address == rest[j].address;
                    }
                    lemma_logs_from_none(rest, last.address);
                    lemma_logs_from_step(logs, last.address);
                    let n = prev.len() as int;
                    assert(c.len() == n + 1 && c[n].address == last.address && c[n].count == 0);
                    assert forall|i: int| 0 <= i < c.len() implies #[trigger] c[i].count + 1
                        == logs_from(logs, c[i].address) by {
                        if i < n {
                            assert(c[i] == prev[i]);
                        }
                    }
                    assert forall|j: int| 0 <= j < logs.len() implies exists|i: int|
                        0 <= i < c.len() && #[trigger] c[i].address == #[trigger] logs[j].address by {
                        if j < rest.len() {
                            assert(rest[j] == logs[j]);
                            let i = choose|i: int| 0 <= i < prev.len() && prev[i].address == rest[j].address;
                            assert(c[i].address == logs[j].address);
                        } else {
                            assert(c[n].address == logs[j].address);
                        }
                    }
                    assert forall|a: int, b: int| 0 <= a < b < c.len() implies #[trigger] c[a].address
                        != #[trigger] c[b].address by {
                        if b == n {
                            assert(c[a] == prev[a]);
                        } else {
                            assert(prev[a].address != prev[b].address);
                        }
                    }
                }
            }
        }
    }
}

/// Adds one block range's candidate to the merged set. Each range counted its own first log of
/// the factory as no pool, so where the factory is already known the later range's first log
/// is credited as one more pool: the merged count is the factory's logs in all ranges less one
/// (saturating), whatever the split. The earlier creation block is kept.
pub open spec fn merge_one(acc: Seq<FactoryCandidate>, c: FactoryCandidate) -> Seq<
    FactoryCandidate,
> {
    let i = index_of(acc, c.address);
    if i >= 0 {
        let sum = acc[i].count + c.count + 1;
        acc.update(
            i,
            FactoryCandidate {
                count: if sum > u64::MAX {
                    u64::MAX
                } else {
                    sum as u64
                },
                creation_block: if c.creation_block < acc[i].creation_block {
                    c.creation_block
                } else {
                    acc[i].creation_block
                },
                ..acc[i]
            },
        )
    } else {
        acc.push(c)
    }
}

pub open spec fn merged(acc: Seq<FactoryCandidate>, batch: Seq<FactoryCandidate>) -> Seq<
    FactoryCandidate,
>
    decreases batch.len(),
{
    if batch.len() == 0 {
        acc
    } else {
        merge_one(merged(acc, batch.drop_last()), batch.last())
    }
}

pub open spec fn meets_threshold(threshold: u64) -> spec_fn(FactoryCandidate) -> bool {
    |c: FactoryCandidate| c.count >= threshold
}

/// Where a candidate at `address` stands, if anywhere.
fn find_candidate(cands: &Vec<FactoryCandidate>, address: Address) -> (r: Option<usize>)
    requires
        distinct_addresses(cands@),
    ensures
        r matches Some(i) ==> i == index_of(cands@, address) && i < cands@.len(),
        r is None ==> index_of(cands@, address) == -1,
{
    let mut i: usize = 0;
    while i < cands.len()
        invariant
            i <= cands@.len(),
            distinct_addresses(cands@),
            forall|j: int| 0 <= j < i ==> cands@[j].address != address,
        decreases cands.len() - i,
    {
        if cands[i].address == address {
            proof {
                let k = index_of(cands@, address);
                assert(cands@[i as int].address == address);
                assert(0 <= k < cands@.len() && cands@[k].address == address);
                if k < i {
                } else if k > i {
                    assert(cands@[i as int].address != cands@[k].address);
                }
            }
            return Some(i);
        }
        i = i + 1;
    }
    None
}

/// `kind_for_topic` picks the first kind whose creation topic matches.
proof fn lemma_first_kind(kinds: Seq<DiscoverableFactory>, topic: nat, i: int)
    requires
        0 <= i <= kinds.len(),
        forall|j: int| 0 <= j < i ==> keccak_word(creation_signature(#[trigger] kinds[j])) != topic,
        i < kinds.len() ==> keccak_word(creation_signature(kinds[i])) == topic,
    ensures
        kind_for_topic(kinds, topic) == (if i < kinds.len() {
            Some(kinds[i])
        } else {
            None::<DiscoverableFactory>
        }),
    decreases kinds.len(),
{
    if kinds.len() > 0 && i > 0 {
        let rest = kinds.drop_first();
        assert forall|j: int| 0 <= j < i - 1 implies keccak_word(
            creation_signature(#[trigger] rest[j]),
        ) != topic by {
            assert(rest[j] == kinds[j + 1]);
        }
        lemma_first_kind(rest, topic, i - 1);
        assert(keccak_word(creation_signature(kinds[0])) != topic);
        if i < kinds.len() {
            assert(rest[i - 1] == kinds[i]);
        }
    }
}

/// The kind among `kinds` whose creation event has topic `topic`.
fn kind_for(kinds: &Vec<DiscoverableFactory>, topic: U256) -> (r: Option<DiscoverableFactory>)
    ensures
        r == kind_for_topic(kinds@, topic.value()),
{
    let mut i: usize = 0;
    while i < kinds.len()
        invariant
            i <= kinds@.len(),
            forall|j: int|
                0 <= j < i ==> keccak_word(creation_signature(#[trigger] kinds@[j]))
                    != topic.value(),
        decreases kinds.len() - i,
    {
        if kinds[i].discovery_event_signature() == topic {
            proof { lemma_first_kind(kinds@, topic.value(), i as int); }
            return Some(kinds[i]);
        }
        i = i + 1;
    }
    proof { lemma_first_kind(kinds@, topic.value(), i as int); }
    None
}

/// A failure on a prefix of the logs is the failure of the whole run.
proof fn lemma_identified_error(logs: Seq<Log>, kinds: Seq<DiscoverableFactory>, n: int, e: AMMError)
    requires
        0 <= n <= logs.len(),
        identified(logs.subrange(0, n), kinds) == Err::<Seq<FactoryCandidate>, AMMError>(e),
    ensures
        identified(logs, kinds) == Err::<Seq<FactoryCandidate>, AMMError>(e),
    decreases logs.len(),
{
    if n == logs.len() {
        assert(logs.subrange(0, n) =~= logs);
    } else {
        assert(logs.drop_last().subrange(0, n) =~= logs.subrange(0, n));
        lemma_identified_error(logs.drop_last(), kinds, n, e);
    }
}

/// Reads a run of logs (as one block range returns them) into factory candidates.
pub fn identify_factories(logs: &Vec<Log>, kinds: &Vec<DiscoverableFactory>) -> (r: Result<
    Vec<FactoryCandidate>,
    AMMError,
>)
    ensures
        r matches Ok(c) ==> identified(logs@, kinds@) == Ok::<Seq<FactoryCandidate>, AMMError>(
            c@,
        ),
        r matches Err(e) ==> identified(logs@, kinds@) == Err::<Seq<FactoryCandidate>, AMMError>(
            e,
        ),
{
    let mut cands: Vec<FactoryCandidate> = Vec::new();
    let mut i: usize = 0;
    assert(logs@.subrange(0, 0) =~= Seq::<Log>::empty());
    while i < logs.len()
        invariant
            i <= logs@.len(),
            identified(logs@.subrange(0, i as int), kinds@) == Ok::<
                Seq<FactoryCandidate>,
                AMMError,
            >(cands@),
            distinct_addresses(cands@),
            forall|j: int| 0 <= j < cands@.len() ==> #[trigger] cands@[j].count <= i,
        decreases logs.len() - i,
    {
        let log = &logs[i];
        let ghost prefix = logs@.subrange(0, i as int + 1);
        assert(prefix.drop_last() =~= logs@.subrange(0, i as int));
        assert(prefix.last() == logs@[i as int]);
        match find_candidate(&cands, log.address) {
            Some(j) => {
                let c = cands[j];
                cands.set(j, FactoryCandidate { count: c.count + 1, ..c });
            },
            None => {
                if log.topics.len() == 0 {
                    proof {
                        lemma_identified_error(logs@, kinds@, i + 1, AMMError::UnsupportedFactoryKind);
                    }
                    return Err(AMMError::UnsupportedFactoryKind);
                }
                let kind = match kind_for(kinds, log.topics[0]) {
                    Some(k) => k,
                    None => {
                        proof {
                            lemma_identified_error(logs@, kinds@, i + 1, AMMError::UnsupportedFactoryKind);
                        }
                        return Err(AMMError::UnsupportedFactoryKind);
                    },
                };
                let block = match log.block_number {
                    Some(b) => b,
                    None => {
                        proof {
                            lemma_identified_error(logs@, kinds@, i + 1, AMMError::BlockNumberNotFound);
                        }
                        return Err(AMMError::BlockNumberNotFound);
                    },
                };
                cands.push(
                    FactoryCandidate { address: log.address, kind, creation_block: block, count: 0 },
                );
            },
        }
        i = i + 1;
    }
    assert(logs@.subrange(0, logs@.len() as int) =~= logs@);
    Ok(cands)
}

/// Folds one block range's candidates into those merged so far.
pub fn merge_candidates(acc: &mut Vec<FactoryCandidate>, batch: &Vec<FactoryCandidate>)
    requires
        distinct_addresses(old(acc)@),
    ensures
        final(acc)@ == merged(old(acc)@, batch@),
        distinct_addresses(final(acc)@),
{
    let ghost start = acc@;
    let mut i: usize = 0;
    assert(batch@.subrange(0, 0) =~= Seq::<FactoryCandidate>::empty());
    while i < batch.len()
        invariant
            i <= batch@.len(),
            acc@ == merged(start, batch@.subrange(0, i as int)),
            distinct_addresses(acc@),
        decreases batch.len() - i,
    {
        let c = batch[i];
        let ghost prefix = batch@.subrange(0, i as int + 1);
        assert(prefix.drop_last() =~= batch@.subrange(0, i as int));
        assert(prefix.last() == c);
        match find_candidate(acc, c.address) {
            Some(j) => {
                let old_c = acc[j];
                let count = old_c.count.saturating_add(c.count).saturating_add(1);
                let creation_block = if c.creation_block < old_c.creation_block {
                    c.creation_block
                } else {
                    old_c.creation_block
                };
                acc.set(j, FactoryCandidate { count, creation_block, ..old_c });
            },
            None => {
                acc.push(c);
            },
        }
        i = i + 1;
    }
    assert(batch@.subrange(0, batch@.len() as int) =~= batch@);
}

/// The candidates credited with at least `threshold` pools, in their order.
pub fn filter_by_threshold(cands: &Vec<FactoryCandidate>, threshold: u64) -> (r: Vec<
    FactoryCandidate,
>)
    ensures
        r@ == cands@.filter(meets_threshold(threshold)),
{
    let mut r: Vec<FactoryCandidate> = Vec::new();
    let mut i: usize = 0;
    assert(cands@.subrange(0, 0) =~= Seq::<FactoryCandidate>::empty());
    reveal(Seq::filter);
    assert(Seq::<FactoryCandidate>::empty().filter(meets_threshold(threshold)) =~= Seq::<
        FactoryCandidate,
    >::empty());
    while i < cands.len()
        invariant
            i <= cands@.len(),
            r@ == cands@.subrange(0, i as int).filter(meets_threshold(threshold)),
        decreases cands.len() - i,
    {
        let c = cands[i];
        let ghost prefix = cands@.subrange(0, i as int + 1);
        assert(prefix.drop_last() =~= cands@.subrange(0, i as int));
        assert(prefix.last() == c);
        reveal(Seq::filter);
        if c.count >= threshold {
            r.push(c);
        }
        i = i + 1;
    }
    assert(cands@.subrange(0, cands@.len() as int) =~= cands@);
    r
}

/// The threshold keeps exactly the candidates credited with at least that many pools: one
/// below it is dropped, one at or above it is kept.
pub proof fn lemma_threshold_selects(cands: Seq<FactoryCandidate>, threshold: u64, i: int)
    requires
        0 <= i < cands.len(),
    ensures
        cands.filter(meets_threshold(threshold)).contains(cands[i]) <==> cands[i].count
            >= threshold,
{
    if cands[i].count >= threshold {
        cands.lemma_filter_contains(meets_threshold(threshold), i);
    } else {
        let out = cands.filter(meets_threshold(threshold));
        broadcast use vstd::seq_lib::group_filter_ensures;
        if out.contains(cands[i]) {
            let k = choose|k: int| 0 <= k < out.len() && out[k] == cands[i];
            assert(meets_threshold(threshold)(out[k]));
        }
    }
}

/// The candidates merged from every block range that was read, and the indexes of the ranges
/// whose read failed.
pub open spec fn merged_ranges(results: Seq<Result<Vec<FactoryCandidate>, AMMError>>) -> (
    Seq<FactoryCandidate>,
    Seq<usize>,
)
    decreases results.len(),
{
    if results.len() == 0 {
        (Seq::empty(), Seq::empty())
    } else {
        let (cands, failed) = merged_ranges(results.drop_last());
        match results.last() {
            Ok(batch) => (merged(cands, batch@), failed),
            Err(_) => (cands, failed.push((results.len() - 1) as usize)),
        }
    }
}

/// Merges the candidates found in each block range, keeps those credited with at least
/// `threshold` pools, and lists the ranges whose read failed: one failed range does not lose
/// the others.
pub fn discover_from_ranges(
    results: &Vec<Result<Vec<FactoryCandidate>, AMMError>>,
    threshold: u64,
) -> (r: (Vec<FactoryCandidate>, Vec<usize>))
    ensures
        r.0@ == merged_ranges(results@).0.filter(meets_threshold(threshold)),
        r.1@ == merged_ranges(results@).1,
{
    let mut cands: Vec<FactoryCandidate> = Vec::new();
    let mut failed: Vec<usize> = Vec::new();
    let mut i: usize = 0;
    assert(results@.subrange(0, 0) =~= Seq::<Result<Vec<FactoryCandidate>, AMMError>>::empty());
    while i < results.len()
        invariant
            i <= results@.len(),
            (cands@, failed@) == merged_ranges(results@.subrange(0, i as int)),
            distinct_addresses(cands@),
        decreases results.len() - i,
    {
        let ghost prefix = results@.subrange(0, i as int + 1);
        assert(prefix.drop_last() =~= results@.subrange(0, i as int));
        assert(prefix.last() == results@[i as int]);
        match &results[i] {
            Ok(batch) => {
                merge_candidates(&mut cands, batch);
            },
            Err(_) => {
                failed.push(i);
            },
        }
        i = i + 1;
    }
    assert(results@.subrange(0, results@.len() as int) =~= results@);
    (filter_by_threshold(&cands, threshold), failed)
}

/// After a run of logs, a factory that logged is kept by the threshold exactly when its logs
/// less one (its pools) reach the threshold: fewer and it is excluded, at least and it is
/// included.
pub proof fn lemma_discovery_threshold(
    logs: Seq<Log>,
    kinds: Seq<DiscoverableFactory>,
    threshold: u64,
    address: Address,
)
    requires
        logs.len() <= u64::MAX,
        identified(logs, kinds) is Ok,
        logs_from(logs, address) > 0,
    ensures
        ({
            let kept = identified(logs, kinds)->Ok_0.filter(meets_threshold(threshold));
            (exists|i: int| 0 <= i < kept.len() && #[trigger] kept[i].address == address) <==> logs_from(
                logs,
                address,
            ) - 1 >= threshold
        }),
{
    let c = identified(logs, kinds)->Ok_0;
    let kept = c.filter(meets_threshold(threshold));
    lemma_identified_counts(logs, kinds);
    if forall|j: int| 0 <= j < logs.len() ==> #[trigger] logs[j].address != address {
        lemma_logs_from_none(logs, address);
    }
    let j = choose|j: int| 0 <= j < logs.len() && #[trigger] logs[j].address == address;
    let i = choose|i: int| 0 <= i < c.len() && #[trigger] c[i].address == logs[j].address;
    lemma_threshold_selects(c, threshold, i);
    if exists|k: int| 0 <= k < kept.len() && #[trigger] kept[k].address == address {
        let k = choose|k: int| 0 <= k < kept.len() && #[trigger] kept[k].address == address;
        assert(kept.contains(kept[k]));
        c.lemma_filter_contains_rev(meets_threshold(threshold), kept[k]);
        let i2 = choose|i2: int| 0 <= i2 < c.len() && c[i2] == kept[k];
        if i2 != i {
            if i2 < i {
                assert(c[i2].address != c[i].address);
            } else {
                assert(c[i].address != c[i2].address);
            }
        }
        assert(kept.contains(c[i]));
    }
    if c[i].count >= threshold {
        assert(kept.contains(c[i]));
        let k = choose|k: int| 0 <= k < kept.len() && kept[k] == c[i];
        assert(kept[k].address == address);
    }
}

pub open spec fn has_factory(factories: Seq<UniswapV2Factory>, address: Address) -> bool {
    exists|i: int| 0 <= i < factories.len() && #[trigger] factories[i].address == address
}

/// The factory list after the first `n` discovered candidates are added to `factories`: a
/// constant-product candidate at an address not yet listed joins with fee `fee`; a listed
/// address keeps its entry, so explicit entries win.
pub open spec fn with_discovered(
    factories: Seq<UniswapV2Factory>,
    found: Seq<FactoryCandidate>,
    fee: usize,
    n: int,
) -> Seq<UniswapV2Factory>
    decreases n,
{
    if n <= 0 {
        factories
    } else {
        let acc = with_discovered(factories, found, fee, n - 1);
        let c = found[n - 1];
        if c.kind == DiscoverableFactory::UniswapV2Factory && !has_factory(acc, c.address) {
            acc.push(UniswapV2Factory { address: c.address, fee, creation_block: c.creation_block })
        } else {
            acc
        }
    }
}

fn find_factory(factories: &Vec<UniswapV2Factory>, address: Address) -> (r: bool)
    ensures
        r == has_factory(factories@, address),
{
    let mut i: usize = 0;
    while i < factories.len()
        invariant
            i <= factories@.len(),
            forall|j: int| 0 <= j < i ==> #[trigger] factories@[j].address != address,
        decreases factories.len() - i,
    {
        if factories[i].address == address {
            return true;
        }
        i = i + 1;
    }
    false
}

/// Merges discovered factories into the explicit list, deduplicated by address with the
/// explicit entries taking precedence. Only constant-product candidates become factories;
/// they take the fee `fee`.
pub fn merge_discovered(
    explicit: &Vec<UniswapV2Factory>,
    found: &Vec<FactoryCandidate>,
    fee: usize,
) -> (r: Vec<UniswapV2Factory>)
    ensures
        r@ == with_discovered(explicit@, found@, fee, found@.len() as int),
{
    let mut r: Vec<UniswapV2Factory> = explicit.clone();
    assert(r@ =~= explicit@);
    let mut i: usize = 0;
    while i < found.len()
        invariant
            i <= found@.len(),
            r@ == with_discovered(explicit@, found@, fee, i as int),
        decreases found.len() - i,
    {
        let c = found[i];
        if c.kind == DiscoverableFactory::UniswapV2Factory && !find_factory(&r, c.address) {
            r.push(UniswapV2Factory { address: c.address, fee, creation_block: c.creation_block });
        }
        i = i + 1;
    }
    r
}

/// The block ranges `[start, end]` that cover `[from_block, to_block]` in steps of `step`
/// blocks, the last one cut at `to_block`.
pub open spec fn range_at(from_block: u64, to_block: u64, step: u64, i: int) -> (u64, u64) {
    let start = from_block + i * step;
    let end = if start + step - 1 > to_block {
        to_block as int
    } else {
        start + step - 1
    };
    (start as u64, end as u64)
}

/// Splits `[from_block, to_block]` into consecutive ranges of `step` blocks.
pub fn block_ranges(from_block: u64, to_block: u64, step: u64) -> (r: Vec<(u64, u64)>)
    requires
        step > 0,
        to_block + step <= u64::MAX,
    ensures
        forall|i: int| 0 <= i < r@.len() ==> #[trigger] r@[i] == range_at(from_block, to_block, step, i),
        r@.len() == 0 <==> from_block > to_block,
        r@.len() > 0 ==> from_block + (r@.len() - 1) * step <= to_block < from_block + r@.len() * step,
{
    let mut ranges: Vec<(u64, u64)> = Vec::new();
    let mut start: u64 = from_block;
    while start <= to_block
        invariant
            step > 0,
            to_block + step <= u64::MAX,
            start == from_block + ranges@.len() * step,
            ranges@.len() > 0 ==> start - step <= to_block,
            start <= to_block + step || ranges@.len() == 0,
            forall|i: int| 0 <= i < ranges@.len() ==> #[trigger] ranges@[i] == range_at(from_block, to_block, step, i),
        decreases to_block + step - start,
    {
        let mut end: u64 = start + step - 1;
        if end > to_block {
            end = to_block;
        }
        proof {
            assert(from_block + (ranges@.len() + 1) * step == start + step) by (nonlinear_arith)
                requires start == from_block + ranges@.len() * step;
        }
        ranges.push((start, end));
        start = start + step;
    }
    proof {
        let n = ranges@.len() as int;
        if n > 0 {
            assert(from_block + (n - 1) * step == start - step && (n - 1) * step >= 0)
                by (nonlinear_arith)
                requires start == from_block + n * step, n >= 1, step > 0;
        }
    }
    ranges
}

} // verus!
