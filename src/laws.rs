use vstd::prelude::*;

use crate::catalog::older_than;
use crate::codec::Span;
use crate::engine::{EngineView, GenerationLog, LoggedEntry};
use crate::entry::LogEntry;
use crate::index::{consistent, CommandPos};

verus! {

/// A lookup right after a write of `key` finds the record just written.
pub proof fn lemma_set_then_get(v: EngineView, key: Seq<char>, pos: u64, len: u64)
    ensures
        v.with_put(key, CommandPos { generation: v.generation, pos, len }).lookup(key) == Some(
            CommandPos { generation: v.generation, pos, len },
        ),
{
}

/// Of two writes of one key, a lookup finds the second; the first one's
/// bytes count as stale.
pub proof fn lemma_overwrite(v: EngineView, key: Seq<char>, first: CommandPos, second: CommandPos)
    ensures
        v.with_put(key, first).with_put(key, second).lookup(key) == Some(second),
        v.with_put(key, first).with_put(key, second).uncompacted == crate::engine::stale_add(
            v.with_put(key, first).uncompacted,
            first.len,
        ),
{
}

/// After a write and a removal of `key`, a lookup finds nothing, and the
/// store no longer holds the key, so a second removal fails with
/// `KeyNotFound`.
pub proof fn lemma_remove_then_get(v: EngineView, key: Seq<char>, pos: CommandPos)
    ensures
        v.with_put(key, pos).with_remove(key).lookup(key) is None,
        !v.with_put(key, pos).with_remove(key).index.contains_key(key),
        v.with_put(key, pos).with_remove(key).with_remove(key) == v.with_put(key, pos).with_remove(
            key,
        ),
{
}

/// What a write or a removal does to the bookkeeping is what replaying its
/// record does when the store is opened again, so the reopened store finds
/// every key where the running one did.
pub proof fn lemma_live_matches_replay(v: EngineView, key: String, value: String, span: Span)
    ensures
        v.with_put(key@, CommandPos { generation: v.generation, pos: span.pos, len: span.len })
            == v.replay_one(
            v.generation,
            LoggedEntry { entry: LogEntry::Put { key, value }, span },
        ),
        v.with_remove(key@) == v.replay_one(
            v.generation,
            LoggedEntry { entry: LogEntry::Remove { key }, span },
        ),
{
}

/// The keys `keys[..n]` pointed at the places `layout[..n]`, later ones
/// winning.
pub open spec fn prefix_map(keys: Seq<Seq<char>>, layout: Seq<CommandPos>, n: nat) -> Map<
    Seq<char>,
    CommandPos,
>
    decreases n,
{
    if n == 0 {
        Map::empty()
    } else {
        prefix_map(keys, layout, (n - 1) as nat).insert(keys[n - 1], layout[n - 1])
    }
}

/// The `i`-th record of `recs` is a `Put` of the `i`-th key, lying at the
/// `i`-th place, in the file of `generation`.
pub open spec fn copies_of(
    recs: Seq<LoggedEntry>,
    keys: Seq<Seq<char>>,
    layout: Seq<CommandPos>,
    generation: u64,
) -> bool {
    &&& recs.len() == keys.len()
    &&& forall|i: int|
        0 <= i < recs.len() ==> {
            &&& (#[trigger] recs[i]).entry is Put
            &&& recs[i].entry.key_spec() == keys[i]
            &&& recs[i].span == (Span { pos: layout[i].pos, len: layout[i].len })
            &&& layout[i].generation == generation
        }
}

proof fn lemma_replay_prefix(
    v: EngineView,
    recs: Seq<LoggedEntry>,
    keys: Seq<Seq<char>>,
    layout: Seq<CommandPos>,
    generation: u64,
    n: nat,
)
    requires
        keys.len() == layout.len(),
        copies_of(recs, keys, layout, generation),
        v.index == Map::<Seq<char>, CommandPos>::empty(),
        n <= recs.len(),
    ensures
        v.replay(generation, recs.take(n as int)).index == prefix_map(keys, layout, n),
    decreases n,
{
    if n > 0 {
        let m = (n - 1) as nat;
        assert(recs.take(n as int).drop_last() == recs.take(m as int));
        lemma_replay_prefix(v, recs, keys, layout, generation, m);
        let rec = recs[m as int];
        assert(recs.take(n as int).last() == rec);
        assert(rec.entry is Put);
        assert(rec.entry.key_spec() == keys[m as int]);
        let before = v.replay(generation, recs.take(m as int));
        match rec.entry {
            LogEntry::Put { key, .. } => {
                assert(key@ == keys[m as int]);
                assert(CommandPos { generation, pos: rec.span.pos, len: rec.span.len } == layout[m as int]);
            },
            LogEntry::Remove { .. } => {},
        }
    }
}

proof fn lemma_prefix_map_entries(keys: Seq<Seq<char>>, layout: Seq<CommandPos>, n: nat)
    requires
        keys.len() == layout.len(),
        n <= keys.len(),
        forall|i: int, j: int| 0 <= i < j < keys.len() ==> keys[i] != keys[j],
    ensures
        forall|k: Seq<char>| #[trigger]
            prefix_map(keys, layout, n).contains_key(k) <==> exists|i: int| 0 <= i < n && keys[i] == k,
        forall|i: int| 0 <= i < n ==> #[trigger] prefix_map(keys, layout, n)[keys[i]] == layout[i],
    decreases n,
{
    if n > 0 {
        let m = (n - 1) as nat;
        lemma_prefix_map_entries(keys, layout, m);
        let pm = prefix_map(keys, layout, m);
        let last = keys[m as int];
        assert(prefix_map(keys, layout, n) == pm.insert(last, layout[m as int]));
        assert forall|k: Seq<char>| #[trigger]
            prefix_map(keys, layout, n).contains_key(k) <==> exists|i: int| 0 <= i < n && keys[i] == k by {
            if k == last {
                assert(keys[m as int] == k);
            } else if pm.contains_key(k) {
                let i = choose|i: int| 0 <= i < m && keys[i] == k;
                assert(0 <= i < n && keys[i] == k);
            } else {
                assert forall|i: int| 0 <= i < n implies keys[i] != k by {
                    if i < m {
                        assert(!(0 <= i < m && keys[i] == k));
                    }
                }
            }
        }
        assert forall|i: int| 0 <= i < n implies #[trigger] prefix_map(keys, layout, n)[keys[i]] == layout[i] by {
            if i < m {
                assert(keys[i] != last);
                assert(pm[keys[i]] == layout[i]);
            }
        }
    }
}

/// The file that compaction writes holds, in the order of the live keys,
/// a copy of each one's latest record. Opening the store replays it: from
/// nothing, that replay alone rebuilds exactly the index that compaction
/// left, so the compacted store reopens with the same contents.
pub proof fn lemma_compacted_log_replays(
    index: Map<Seq<char>, CommandPos>,
    keys: Seq<Seq<char>>,
    layout: Seq<CommandPos>,
    recs: Seq<LoggedEntry>,
    compaction_generation: u64,
    v: EngineView,
)
    requires
        consistent(index, keys, layout),
        copies_of(recs, keys, layout, compaction_generation),
        v.index == Map::<Seq<char>, CommandPos>::empty(),
    ensures
        v.replay(compaction_generation, recs).index == index,
{
    lemma_replay_prefix(v, recs, keys, layout, compaction_generation, recs.len());
    assert(recs.take(recs.len() as int) == recs);
    lemma_prefix_map_entries(keys, layout, keys.len());
    let built = prefix_map(keys, layout, keys.len());
    assert forall|k: Seq<char>| #[trigger] built.contains_key(k) == index.contains_key(k) by {
        if index.contains_key(k) {
            let i = choose|i: int| 0 <= i < keys.len() && keys[i] == k;
            assert(built.contains_key(keys[i]));
        }
        if built.contains_key(k) {
            let i = choose|i: int| 0 <= i < keys.len() && keys[i] == k;
            assert(index.contains_key(keys[i]));
        }
    }
    assert forall|k: Seq<char>| #[trigger] built.contains_key(k) implies built[k] == index[k] by {
        let i = choose|i: int| 0 <= i < keys.len() && keys[i] == k;
        assert(built[keys[i]] == layout[i]);
        assert(index[keys[i]] == layout[i]);
    }
    assert(built =~= index);
}

proof fn lemma_older_than_below(gens: Seq<u64>, bound: u64)
    ensures
        forall|i: int| 0 <= i < older_than(gens, bound).len() ==> #[trigger] older_than(gens, bound)[i] < bound,
        forall|g: u64| gens.contains(g) && g < bound ==> older_than(gens, bound).contains(g),
    decreases gens.len(),
{
    if gens.len() > 0 {
        let rest = gens.drop_last();
        lemma_older_than_below(rest, bound);
        assert forall|g: u64| gens.contains(g) && g < bound implies older_than(gens, bound).contains(g) by {
            let j = choose|j: int| 0 <= j < gens.len() && gens[j] == g;
            if j < gens.len() - 1 {
                assert(rest[j] == g);
                assert(rest.contains(g));
                assert(older_than(rest, bound).contains(g));
                let k = choose|k: int| 0 <= k < older_than(rest, bound).len() && older_than(rest, bound)[k] == g;
                assert(older_than(gens, bound)[k] == g);
            } else {
                assert(older_than(gens, bound).last() == g);
            }
        }
    }
}

/// Once compaction has moved every live record into its file, the files
/// that it retires are exactly those of the older generations on disk, and
/// no key points into any of them: deleting them loses nothing.
pub proof fn lemma_retired_files_unreferenced(
    index: Map<Seq<char>, CommandPos>,
    gens: Seq<u64>,
    compaction_generation: u64,
)
    requires
        forall|k: Seq<char>| #[trigger] index.contains_key(k) ==> index[k].generation == compaction_generation,
    ensures
        forall|g: u64| #[trigger] older_than(gens, compaction_generation).contains(g) ==> g < compaction_generation
            && gens.contains(g),
        forall|g: u64| gens.contains(g) && g < compaction_generation ==> #[trigger] older_than(gens, compaction_generation).contains(g),
        forall|k: Seq<char>, g: u64|
            #[trigger] index.contains_key(k) && #[trigger] older_than(gens, compaction_generation).contains(g)
                ==> index[k].generation != g,
{
    lemma_older_than_below(gens, compaction_generation);
    lemma_older_than_within(gens, compaction_generation);
}

proof fn lemma_older_than_within(gens: Seq<u64>, bound: u64)
    ensures
        forall|g: u64| #[trigger] older_than(gens, bound).contains(g) ==> gens.contains(g),
    decreases gens.len(),
{
    if gens.len() > 0 {
        let rest = gens.drop_last();
        lemma_older_than_within(rest, bound);
        assert forall|g: u64| #[trigger] older_than(gens, bound).contains(g) implies gens.contains(g) by {
            if older_than(rest, bound).contains(g) {
                let j = choose|j: int| 0 <= j < rest.len() && rest[j] == g;
                assert(gens[j] == g);
            } else {
                assert(gens.last() == g);
                assert(gens[gens.len() - 1] == g);
            }
        }
    }
}

proof fn lemma_replay_concat(v: EngineView, generation: u64, a: Seq<LoggedEntry>, b: Seq<LoggedEntry>)
    ensures
        v.replay(generation, a + b) == v.replay(generation, a).replay(generation, b),
    decreases b.len(),
{
    if b.len() == 0 {
        assert(a + b == a);
    } else {
        assert((a + b).drop_last() == a + b.drop_last());
        assert((a + b).last() == b.last());
        lemma_replay_concat(v, generation, a, b.drop_last());
    }
}

proof fn lemma_replay_index_only(v1: EngineView, v2: EngineView, generation: u64, recs: Seq<LoggedEntry>)
    requires
        v1.index == v2.index,
    ensures
        v1.replay(generation, recs).index == v2.replay(generation, recs).index,
    decreases recs.len(),
{
    if recs.len() > 0 {
        lemma_replay_index_only(v1, v2, generation, recs.drop_last());
    }
}

/// Reading a store's files on open rebuilds its index. Once that holds,
/// appending the records of further writes and removals to the active file
/// keeps it so: reopening then finds every key where the running store,
/// which replays the same records as it writes them, did.
pub proof fn lemma_reopen_matches_live(
    logs: Seq<GenerationLog>,
    v: EngineView,
    more: Seq<LoggedEntry>,
    reopened: Seq<GenerationLog>,
)
    requires
        logs.len() > 0,
        EngineView::empty().replay_logs(logs).index == v.index,
        reopened.len() == logs.len(),
        reopened.drop_last() == logs.drop_last(),
        reopened.last().generation == logs.last().generation,
        reopened.last().records@ == logs.last().records@ + more,
    ensures
        EngineView::empty().replay_logs(reopened).index == v.replay(logs.last().generation, more).index,
{
    let g = logs.last().generation;
    let base = EngineView::empty().replay_logs(logs.drop_last()).with_file(g);
    lemma_replay_concat(base, g, logs.last().records@, more);
    lemma_replay_index_only(EngineView::empty().replay_logs(logs), v, g, more);
}

} // verus!
