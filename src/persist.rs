//! What persistence does with a change set, as a model of the cache, and the
//! laws that tie the differ to it.

use vstd::prelude::*;
use crate::differ::{
    diff, has_key, has_record_key, has_unique_keys, is_diff_of, record_is_correct, unique_keys,
    ChangeKind, ChangeRecord, MirrorItem,
};

verus! {

/// The records that reach persistence: all but `NoChange`.
pub open spec fn effective<T>(changes: Seq<ChangeRecord<T>>) -> Seq<ChangeRecord<T>> {
    changes.filter(|r: ChangeRecord<T>| r.kind != ChangeKind::NoChange)
}

/// The keys of a snapshot.
pub open spec fn key_set<T: MirrorItem>(s: Seq<T>) -> Set<T::Key> {
    Set::new(|k: T::Key| has_key(s, k))
}

/// A snapshot as a cache state: each key to the item that has it.
pub open spec fn snapshot_map<T: MirrorItem>(s: Seq<T>) -> Map<T::Key, T> {
    Map::new(
        |k: T::Key| has_key(s, k),
        |k: T::Key| s[choose|i: int| 0 <= i < s.len() && s[i].key() == k],
    )
}

/// One record applied to a cache state: an upsert writes the item under its
/// key, a delete removes the key, `NoChange` leaves the state alone.
pub open spec fn apply_record<T: MirrorItem>(cache: Map<T::Key, T>, rec: ChangeRecord<T>) -> Map<T::Key, T> {
    match rec.kind {
        ChangeKind::Upsert => cache.insert(rec.item.key(), rec.item),
        ChangeKind::Delete => cache.remove(rec.item.key()),
        ChangeKind::NoChange => cache,
    }
}

/// The cache state after applying `changes` in order.
pub open spec fn apply_changes<T: MirrorItem>(cache: Map<T::Key, T>, changes: Seq<ChangeRecord<T>>) -> Map<T::Key, T>
    decreases changes.len(),
{
    if changes.len() == 0 {
        cache
    } else {
        apply_record(apply_changes(cache, changes.drop_last()), changes.last())
    }
}

/// The records of `changes` that persistence has to carry out, in order.
pub fn effective_changes<T>(changes: Vec<ChangeRecord<T>>) -> (r: Vec<ChangeRecord<T>>)
    ensures
        r@ == effective(changes@),
{
    let ghost pred = |r: ChangeRecord<T>| r.kind != ChangeKind::NoChange;
    let mut out: Vec<ChangeRecord<T>> = Vec::new();
    for rec in it: changes.into_iter()
        invariant
            it.seq() == changes@,
            pred == (|r: ChangeRecord<T>| r.kind != ChangeKind::NoChange),
            out@ == changes@.take(it.index()).filter(pred),
    {
        proof {
            assert(changes@.take(it.index() + 1) == changes@.take(it.index()).push(rec));
            changes@.take(it.index()).lemma_filter_push(rec, pred);
        }
        match rec.kind {
            ChangeKind::NoChange => {},
            _ => {
                out.push(rec);
            },
        }
    }
    proof {
        assert(changes@.take(changes@.len() as int) == changes@);
    }
    out
}

/// The effective change set of `cache` against `remote`, or `None` when a
/// snapshot holds two items with one key.
pub fn sync_changes<T: MirrorItem>(cache: Vec<T>, remote: Vec<T>) -> (r: Option<Vec<ChangeRecord<T>>>)
    ensures
        r is None <==> !(unique_keys(cache@) && unique_keys(remote@)),
        r is Some ==> exists|out: Seq<ChangeRecord<T>>|
            is_diff_of(cache@, remote@, out) && r->0@ == effective(out),
{
    if !has_unique_keys(&cache) || !has_unique_keys(&remote) {
        return None;
    }
    let ghost c = cache@;
    let ghost rm = remote@;
    let all = diff(cache, remote);
    let ghost all_view = all@;
    let r = effective_changes(all);
    proof {
        assert(is_diff_of(c, rm, all_view) && r@ == effective(all_view));
    }
    Some(r)
}

proof fn lemma_apply_effective<T: MirrorItem>(cache: Map<T::Key, T>, changes: Seq<ChangeRecord<T>>)
    ensures
        apply_changes(cache, effective(changes)) == apply_changes(cache, changes),
    decreases changes.len(),
{
    if changes.len() > 0 {
        let pred = |r: ChangeRecord<T>| r.kind != ChangeKind::NoChange;
        let init = changes.drop_last();
        lemma_apply_effective(cache, init);
        assert(changes == init.push(changes.last()));
        init.lemma_filter_push(changes.last(), pred);
        if pred(changes.last()) {
            assert(effective(changes).drop_last() == effective(init));
        }
    }
}

/// Records of `changes` have pairwise distinct keys.
pub open spec fn distinct_record_keys<T: MirrorItem>(changes: Seq<ChangeRecord<T>>) -> bool {
    forall|i: int, j: int|
        0 <= i < changes.len() && 0 <= j < changes.len() && i != j ==> (#[trigger] changes[i]).item.key()
            != (#[trigger] changes[j]).item.key()
}

proof fn lemma_apply_untouched<T: MirrorItem>(cache: Map<T::Key, T>, changes: Seq<ChangeRecord<T>>, k: T::Key)
    requires
        !has_record_key(changes, k),
    ensures
        apply_changes(cache, changes).contains_key(k) == cache.contains_key(k),
        cache.contains_key(k) ==> apply_changes(cache, changes)[k] == cache[k],
    decreases changes.len(),
{
    if changes.len() > 0 {
        let init = changes.drop_last();
        assert(!has_record_key(init, k)) by {
            if has_record_key(init, k) {
                let i = choose|i: int| 0 <= i < init.len() && init[i].item.key() == k;
                assert(changes[i] == init[i]);
            }
        }
        assert(changes[changes.len() - 1].item.key() != k);
        lemma_apply_untouched(cache, init, k);
    }
}

proof fn lemma_apply_at<T: MirrorItem>(cache: Map<T::Key, T>, changes: Seq<ChangeRecord<T>>, i: int)
    requires
        distinct_record_keys(changes),
        0 <= i < changes.len(),
    ensures
        ({
            let rec = changes[i];
            let after = apply_changes(cache, changes);
            let k = rec.item.key();
            &&& rec.kind == ChangeKind::Upsert ==> after.contains_key(k) && after[k] == rec.item
            &&& rec.kind == ChangeKind::Delete ==> !after.contains_key(k)
            &&& rec.kind == ChangeKind::NoChange ==> after.contains_key(k) == cache.contains_key(k)
                && (cache.contains_key(k) ==> after[k] == cache[k])
        }),
    decreases changes.len(),
{
    let init = changes.drop_last();
    let k = changes[i].item.key();
    if i == changes.len() - 1 {
        assert(!has_record_key(init, k)) by {
            if has_record_key(init, k) {
                let j = choose|j: int| 0 <= j < init.len() && init[j].item.key() == k;
                assert(changes[j] == init[j]);
            }
        }
        lemma_apply_untouched(cache, init, k);
    } else {
        assert(distinct_record_keys(init)) by {
            assert forall|a: int, b: int|
                0 <= a < init.len() && 0 <= b < init.len() && a != b implies (#[trigger] init[a]).item.key()
                != (#[trigger] init[b]).item.key() by {
                assert(init[a] == changes[a]);
                assert(init[b] == changes[b]);
            }
        }
        assert(init[i] == changes[i]);
        lemma_apply_at(cache, init, i);
        assert(changes[changes.len() - 1].item.key() != k);
    }
}

proof fn lemma_ascending_distinct<T: MirrorItem>(out: Seq<ChangeRecord<T>>)
    requires
        crate::differ::records_ascending(out),
    ensures
        distinct_record_keys(out),
{
    T::lemma_key_order();
    assert forall|i: int, j: int|
        0 <= i < out.len() && 0 <= j < out.len() && i != j implies (#[trigger] out[i]).item.key()
        != (#[trigger] out[j]).item.key() by {
        if i < j {
            assert(T::key_lt(out[i].item.key(), out[j].item.key()));
        } else {
            assert(T::key_lt(out[j].item.key(), out[i].item.key()));
        }
    }
}

proof fn lemma_snapshot_at<T: MirrorItem>(s: Seq<T>, j: int)
    requires
        unique_keys(s),
        0 <= j < s.len(),
    ensures
        snapshot_map(s).contains_key(s[j].key()),
        snapshot_map(s)[s[j].key()] == s[j],
{
    let k = s[j].key();
    assert(has_key(s, k));
    let i = choose|i: int| 0 <= i < s.len() && s[i].key() == k;
    assert(i == j);
}

proof fn lemma_same_key_same_item<T: MirrorItem>(s: Seq<T>, x: T, y: T)
    requires
        unique_keys(s),
        s.contains(x),
        s.contains(y),
        x.key() == y.key(),
    ensures
        x == y,
{
    let i = choose|i: int| 0 <= i < s.len() && s[i] == x;
    let j = choose|j: int| 0 <= j < s.len() && s[j] == y;
    assert(s[i].key() == s[j].key());
}

/// Convergence: applying the effective change set of `cache` against
/// `remote` to `cache` leaves exactly the keys of `remote` in the cache.
pub proof fn lemma_convergence<T: MirrorItem>(
    cache: Seq<T>,
    remote: Seq<T>,
    out: Seq<ChangeRecord<T>>,
)
    requires
        unique_keys(cache),
        unique_keys(remote),
        is_diff_of(cache, remote, out),
    ensures
        apply_changes(snapshot_map(cache), effective(out)).dom() == key_set(remote),
{
    let m = snapshot_map(cache);
    lemma_apply_effective(m, out);
    lemma_ascending_distinct(out);
    let after = apply_changes(m, out);
    assert forall|k: T::Key| after.contains_key(k) <==> has_key(remote, k) by {
        if has_record_key(out, k) {
            let i = choose|i: int| 0 <= i < out.len() && out[i].item.key() == k;
            lemma_apply_at(m, out, i);
            assert(record_is_correct(cache, remote, out[i]));
            if out[i].kind == ChangeKind::NoChange {
                let j = choose|j: int| 0 <= j < cache.len() && (#[trigger] cache[j]).key() == k
                    && !out[i].item.supersedes(cache[j]) && !out[i].item.always_resync();
                assert(has_key(cache, k));
            }
            if out[i].kind != ChangeKind::Delete {
                let j = choose|j: int| 0 <= j < remote.len() && remote[j] == out[i].item;
                assert(has_key(remote, k));
            }
        } else {
            lemma_apply_untouched(m, out, k);
        }
    }
    assert(after.dom() =~= key_set(remote));
}

/// Idempotence: once the effective change set of `cache` against `remote`
/// has been applied, a second diff against the same remote snapshot has
/// nothing left to do, provided no remote item is re-synchronised on every
/// cycle.
pub proof fn lemma_idempotence<T: MirrorItem>(
    cache: Seq<T>,
    remote: Seq<T>,
    first: Seq<ChangeRecord<T>>,
    refreshed: Seq<T>,
    second: Seq<ChangeRecord<T>>,
)
    requires
        unique_keys(cache),
        unique_keys(remote),
        is_diff_of(cache, remote, first),
        unique_keys(refreshed),
        snapshot_map(refreshed) == apply_changes(snapshot_map(cache), effective(first)),
        is_diff_of(refreshed, remote, second),
        forall|i: int| 0 <= i < remote.len() ==> !(#[trigger] remote[i]).always_resync(),
    ensures
        effective(second).len() == 0,
{
    let m = snapshot_map(cache);
    let m2 = snapshot_map(refreshed);
    lemma_convergence(cache, remote, first);
    lemma_apply_effective(m, first);
    lemma_ascending_distinct(first);
    assert forall|i: int| 0 <= i < second.len() implies (#[trigger] second[i]).kind == ChangeKind::NoChange by {
        let rec = second[i];
        let k = rec.item.key();
        assert(record_is_correct(refreshed, remote, rec));
        if rec.kind == ChangeKind::Delete {
            let j = choose|j: int| 0 <= j < refreshed.len() && refreshed[j] == rec.item;
            lemma_snapshot_at(refreshed, j);
            assert(key_set(remote).contains(k));
        } else if rec.kind == ChangeKind::Upsert {
            let x = rec.item;
            let xi = choose|xi: int| 0 <= xi < remote.len() && remote[xi] == x;
            assert(!x.always_resync());
            assert(has_key(remote, k));
            assert(m2.dom().contains(k));
            assert(has_key(refreshed, k));
            let j = choose|j: int| 0 <= j < refreshed.len() && (#[trigger] refreshed[j]).key() == k
                && (x.supersedes(refreshed[j]) || x.always_resync());
            lemma_snapshot_at(refreshed, j);
            let cached = refreshed[j];
            assert(x.supersedes(cached));
            assert(has_record_key(first, k));
            let p = choose|p: int| 0 <= p < first.len() && first[p].item.key() == k;
            lemma_apply_at(m, first, p);
            assert(record_is_correct(cache, remote, first[p]));
            if first[p].kind == ChangeKind::Upsert {
                lemma_same_key_same_item(remote, x, first[p].item);
                T::lemma_supersedes_irreflexive(x);
            } else if first[p].kind == ChangeKind::NoChange {
                lemma_same_key_same_item(remote, x, first[p].item);
                let c = choose|c: int| 0 <= c < cache.len() && (#[trigger] cache[c]).key() == k
                    && !first[p].item.supersedes(cache[c]) && !first[p].item.always_resync();
                lemma_snapshot_at(cache, c);
            }
        }
    }
    let pred = |r: ChangeRecord<T>| r.kind != ChangeKind::NoChange;
    if effective(second).len() > 0 {
        second.lemma_filter_pred(pred, 0);
        second.lemma_filter_contains_rev(pred, effective(second)[0]);
    }
}

/// Merge-join classification: every key of either snapshot has exactly one
/// record; a key only in the cache is deleted, a key only in the remote
/// snapshot is upserted, and a key on both sides is upserted or left alone
/// with the remote item.
pub proof fn lemma_merge_join_classification<T: MirrorItem>(
    cache: Seq<T>,
    remote: Seq<T>,
    out: Seq<ChangeRecord<T>>,
    k: T::Key,
)
    requires
        unique_keys(cache),
        unique_keys(remote),
        is_diff_of(cache, remote, out),
    ensures
        has_key(cache, k) || has_key(remote, k) <==> exists|i: int| 0 <= i < out.len() && (#[trigger] out[i]).item.key() == k,
        forall|i: int, j: int|
            0 <= i < out.len() && 0 <= j < out.len() && (#[trigger] out[i]).item.key() == k && (#[trigger] out[j]).item.key() == k
                ==> i == j,
        forall|i: int| 0 <= i < out.len() && (#[trigger] out[i]).item.key() == k ==> {
            &&& has_key(cache, k) && !has_key(remote, k) ==> out[i].kind == ChangeKind::Delete && cache.contains(out[i].item)
            &&& !has_key(cache, k) && has_key(remote, k) ==> out[i].kind == ChangeKind::Upsert && remote.contains(out[i].item)
            &&& has_key(cache, k) && has_key(remote, k) ==> out[i].kind != ChangeKind::Delete && remote.contains(out[i].item)
        },
{
    lemma_ascending_distinct(out);
    assert forall|i: int| 0 <= i < out.len() && (#[trigger] out[i]).item.key() == k implies {
        &&& has_key(cache, k) && !has_key(remote, k) ==> out[i].kind == ChangeKind::Delete && cache.contains(out[i].item)
        &&& !has_key(cache, k) && has_key(remote, k) ==> out[i].kind == ChangeKind::Upsert && remote.contains(out[i].item)
        &&& has_key(cache, k) && has_key(remote, k) ==> out[i].kind != ChangeKind::Delete && remote.contains(out[i].item)
    } by {
        assert(record_is_correct(cache, remote, out[i]));
        if out[i].kind != ChangeKind::Delete {
            let j = choose|j: int| 0 <= j < remote.len() && remote[j] == out[i].item;
            assert(has_key(remote, k));
        } else {
            let j = choose|j: int| 0 <= j < cache.len() && cache[j] == out[i].item;
            assert(has_key(cache, k));
        }
        if out[i].kind == ChangeKind::NoChange {
            let j = choose|j: int| 0 <= j < cache.len() && (#[trigger] cache[j]).key() == k
                && !out[i].item.supersedes(cache[j]) && !out[i].item.always_resync();
            assert(has_key(cache, k));
        }
    }
    assert(has_key(cache, k) || has_key(remote, k) <==> has_record_key(out, k));
}

/// Forced re-sync: a remote item that is re-synchronised on every cycle is
/// always upserted, whatever its freshness signal says.
pub proof fn lemma_forced_resync<T: MirrorItem>(
    cache: Seq<T>,
    remote: Seq<T>,
    out: Seq<ChangeRecord<T>>,
    x: T,
)
    requires
        unique_keys(cache),
        unique_keys(remote),
        is_diff_of(cache, remote, out),
        remote.contains(x),
        x.always_resync(),
    ensures
        exists|i: int| 0 <= i < out.len() && (#[trigger] out[i]).kind == ChangeKind::Upsert && out[i].item == x,
{
    let k = x.key();
    let xi = choose|xi: int| 0 <= xi < remote.len() && remote[xi] == x;
    assert(has_key(remote, k));
    assert(has_record_key(out, k));
    let i = choose|i: int| 0 <= i < out.len() && out[i].item.key() == k;
    assert(record_is_correct(cache, remote, out[i]));
    if out[i].kind != ChangeKind::Delete {
        lemma_same_key_same_item(remote, x, out[i].item);
    }
    assert(out[i].kind == ChangeKind::Upsert && out[i].item == x);
}

} // verus!
