//! The merge-join differ: reconciles a cache snapshot with a remote snapshot,
//! both keyed by a unique, totally ordered key, into classified change records.

use vstd::prelude::*;
use core::cmp::Ordering;

verus! {

/// What the persistence step is to do with one item.
#[derive(Clone, Copy, Debug, PartialEq, Eq, Structural)]
pub enum ChangeKind {
    /// Write the remote item into the cache.
    Upsert,
    /// Remove the cached item.
    Delete,
    /// The cached item is current; nothing to write.
    NoChange,
}

/// One classified item: for `Upsert` and `NoChange` the remote item, for
/// `Delete` the cached one.
#[derive(Debug)]
pub struct ChangeRecord<T> {
    pub kind: ChangeKind,
    pub item: T,
}

/// An item that can be mirrored: it has a key, unique within one snapshot and
/// totally ordered, and a freshness signal that compares a remote copy with a
/// cached copy of the same key.
pub trait MirrorItem: Sized {
    type Key;

    spec fn key(self) -> Self::Key;

    /// The strict order on keys.
    spec fn key_lt(a: Self::Key, b: Self::Key) -> bool;

    /// Whether this remote copy is newer than (or differs from) `cached`.
    spec fn supersedes(self, cached: Self) -> bool;

    /// Whether this item is re-synchronised on every cycle, fresh or not.
    spec fn always_resync(self) -> bool;

    proof fn lemma_key_order()
        ensures
            forall|a: Self::Key| !#[trigger] Self::key_lt(a, a),
            forall|a: Self::Key, b: Self::Key, c: Self::Key|
                #[trigger] Self::key_lt(a, b) && #[trigger] Self::key_lt(b, c) ==> Self::key_lt(a, c),
            forall|a: Self::Key, b: Self::Key|
                #![trigger Self::key_lt(a, b)]
                #![trigger Self::key_lt(b, a)]
                a != b ==> Self::key_lt(a, b) || Self::key_lt(b, a),
    ;

    proof fn lemma_supersedes_irreflexive(x: Self)
        ensures
            !x.supersedes(x),
    ;

    fn compare_keys(&self, other: &Self) -> (r: Ordering)
        ensures
            (r == Ordering::Less) == Self::key_lt(self.key(), other.key()),
            (r == Ordering::Equal) == (self.key() == other.key()),
            (r == Ordering::Greater) == Self::key_lt(other.key(), self.key()),
    ;

    fn is_fresher_than(&self, cached: &Self) -> (r: bool)
        ensures
            r == self.supersedes(*cached),
    ;

    fn needs_resync(&self) -> (r: bool)
        ensures
            r == self.always_resync(),
    ;
}

/// Some item of `s` has key `k`.
pub open spec fn has_key<T: MirrorItem>(s: Seq<T>, k: T::Key) -> bool {
    exists|i: int| 0 <= i < s.len() && (#[trigger] s[i]).key() == k
}

/// No two items of `s` share a key.
pub open spec fn unique_keys<T: MirrorItem>(s: Seq<T>) -> bool {
    forall|i: int, j: int|
        0 <= i < s.len() && 0 <= j < s.len() && i != j ==> (#[trigger] s[i]).key() != (#[trigger] s[j]).key()
}

/// The keys of `s` strictly decrease.
pub open spec fn strictly_descending<T: MirrorItem>(s: Seq<T>) -> bool {
    forall|i: int, j: int| 0 <= i < j < s.len() ==> T::key_lt((#[trigger] s[j]).key(), (#[trigger] s[i]).key())
}

/// Some record of `out` is about key `k`.
pub open spec fn has_record_key<T: MirrorItem>(out: Seq<ChangeRecord<T>>, k: T::Key) -> bool {
    exists|i: int| 0 <= i < out.len() && (#[trigger] out[i]).item.key() == k
}

/// The keys of the records of `out` strictly increase.
pub open spec fn records_ascending<T: MirrorItem>(out: Seq<ChangeRecord<T>>) -> bool {
    forall|i: int, j: int|
        0 <= i < j < out.len() ==> T::key_lt((#[trigger] out[i]).item.key(), (#[trigger] out[j]).item.key())
}

/// `rec` is classified as the merge-join classifies its key.
pub open spec fn record_is_correct<T: MirrorItem>(
    cache: Seq<T>,
    remote: Seq<T>,
    rec: ChangeRecord<T>,
) -> bool {
    let k = rec.item.key();
    match rec.kind {
        ChangeKind::Delete => cache.contains(rec.item) && !has_key(remote, k),
        ChangeKind::Upsert => remote.contains(rec.item) && (!has_key(cache, k) || exists|j: int|
            0 <= j < cache.len() && (#[trigger] cache[j]).key() == k && (rec.item.supersedes(cache[j])
                || rec.item.always_resync())),
        ChangeKind::NoChange => remote.contains(rec.item) && exists|j: int|
            0 <= j < cache.len() && (#[trigger] cache[j]).key() == k && !rec.item.supersedes(cache[j])
                && !rec.item.always_resync(),
    }
}

/// `out` is the change set of `cache` against `remote`: one record per key of
/// either side, in ascending key order, each classified correctly.
pub open spec fn is_diff_of<T: MirrorItem>(
    cache: Seq<T>,
    remote: Seq<T>,
    out: Seq<ChangeRecord<T>>,
) -> bool {
    &&& records_ascending(out)
    &&& forall|k: T::Key| has_record_key(out, k) <==> has_key(cache, k) || has_key(remote, k)
    &&& forall|i: int| 0 <= i < out.len() ==> record_is_correct(cache, remote, #[trigger] out[i])
}

/// Whether no two items of `items` share a key.
pub fn has_unique_keys<T: MirrorItem>(items: &Vec<T>) -> (r: bool)
    ensures
        r == unique_keys(items@),
{
    let n = items.len();
    let mut i: usize = 0;
    while i < n
        invariant
            n == items@.len(),
            i <= n,
            forall|a: int, b: int|
                0 <= a < i && 0 <= b < n && a != b ==> (#[trigger] items@[a]).key() != (#[trigger] items@[b]).key(),
        decreases n - i,
    {
        let mut j: usize = 0;
        while j < n
            invariant
                n == items@.len(),
                i < n,
                j <= n,
                forall|a: int, b: int|
                    0 <= a < i && 0 <= b < n && a != b ==> (#[trigger] items@[a]).key() != (#[trigger] items@[b]).key(),
                forall|b: int| 0 <= b < j && b != i ==> items@[i as int].key() != (#[trigger] items@[b]).key(),
            decreases n - j,
        {
            if j != i {
                match items[i].compare_keys(&items[j]) {
                    Ordering::Equal => {
                        return false;
                    },
                    _ => {},
                }
            }
            j = j + 1;
        }
        i = i + 1;
    }
    true
}

/// `s` contains exactly the items of `a` and `b`, by position.
pub open spec fn holds_both<T>(s: Seq<T>, a: Seq<T>, b: Seq<T>) -> bool {
    &&& s.len() == a.len() + b.len()
    &&& forall|i: int| 0 <= i < s.len() ==> a.contains(#[trigger] s[i]) || b.contains(s[i])
    &&& forall|i: int| 0 <= i < a.len() ==> s.contains(#[trigger] a[i])
    &&& forall|i: int| 0 <= i < b.len() ==> s.contains(#[trigger] b[i])
}

/// Merges two strictly descending runs with no key in common into one.
fn merge_descending<T: MirrorItem>(a: Vec<T>, b: Vec<T>) -> (r: Vec<T>)
    requires
        strictly_descending(a@),
        strictly_descending(b@),
        forall|i: int, j: int| 0 <= i < a@.len() && 0 <= j < b@.len() ==> (#[trigger] a@[i]).key() != (#[trigger] b@[j]).key(),
    ensures
        strictly_descending(r@),
        holds_both(r@, a@, b@),
{
    let ghost a0 = a@;
    let ghost b0 = b@;
    let mut a = a;
    let mut b = b;
    let mut asc: Vec<T> = Vec::new();
    while a.len() > 0 || b.len() > 0
        invariant
            strictly_descending(a0),
            strictly_descending(b0),
            forall|i: int, j: int| 0 <= i < a0.len() && 0 <= j < b0.len() ==> (#[trigger] a0[i]).key() != (#[trigger] b0[j]).key(),
            a@ == a0.take(a@.len() as int),
            b@ == b0.take(b@.len() as int),
            a@.len() <= a0.len(),
            b@.len() <= b0.len(),
            asc@.len() + a@.len() + b@.len() == a0.len() + b0.len(),
            forall|i: int, j: int| 0 <= i < j < asc@.len() ==> T::key_lt((#[trigger] asc@[i]).key(), (#[trigger] asc@[j]).key()),
            forall|i: int, j: int| 0 <= i < asc@.len() && 0 <= j < a@.len() ==> T::key_lt((#[trigger] asc@[i]).key(), (#[trigger] a@[j]).key()),
            forall|i: int, j: int| 0 <= i < asc@.len() && 0 <= j < b@.len() ==> T::key_lt((#[trigger] asc@[i]).key(), (#[trigger] b@[j]).key()),
            forall|i: int| 0 <= i < asc@.len() ==> (exists|j: int| a@.len() <= j < a0.len() && a0[j] == #[trigger] asc@[i])
                || (exists|j: int| b@.len() <= j < b0.len() && b0[j] == asc@[i]),
            forall|j: int| a@.len() <= j < a0.len() ==> asc@.contains(#[trigger] a0[j]),
            forall|j: int| b@.len() <= j < b0.len() ==> asc@.contains(#[trigger] b0[j]),
        decreases a@.len() + b@.len(),
    {
        proof {
            T::lemma_key_order();
        }
        let na = a.len();
        let nb = b.len();
        let take_a = if na == 0 {
            false
        } else if nb == 0 {
            true
        } else {
            match a[na - 1].compare_keys(&b[nb - 1]) {
                Ordering::Less => true,
                _ => false,
            }
        };
        proof {
            if na > 0 && nb > 0 {
                assert(a@[na - 1] == a0[na - 1]);
                assert(b@[nb - 1] == b0[nb - 1]);
            }
        }
        let ghost old_asc = asc@;
        let x = if take_a {
            a.pop().unwrap()
        } else {
            b.pop().unwrap()
        };
        asc.push(x);
        proof {
            assert(a@ =~= a0.take(a@.len() as int));
            assert(b@ =~= b0.take(b@.len() as int));
            if take_a {
                assert(x == a0[na - 1]);
                assert forall|j: int| 0 <= j < b@.len() implies T::key_lt(x.key(), (#[trigger] b@[j]).key()) by {
                    assert(b@[j] == b0[j]);
                    if nb > 0 {
                        assert(b0[nb - 1].key() != x.key());
                        if j < nb - 1 {
                            assert(T::key_lt(b0[nb - 1].key(), b0[j].key()));
                        }
                    }
                }
                assert forall|j: int| 0 <= j < a@.len() implies T::key_lt(x.key(), (#[trigger] a@[j]).key()) by {
                    assert(a@[j] == a0[j]);
                }
            } else {
                assert(x == b0[nb - 1]);
                assert forall|j: int| 0 <= j < a@.len() implies T::key_lt(x.key(), (#[trigger] a@[j]).key()) by {
                    assert(a@[j] == a0[j]);
                    assert(a0[na - 1].key() != x.key());
                    if j < na - 1 {
                        assert(T::key_lt(a0[na - 1].key(), a0[j].key()));
                    }
                }
                assert forall|j: int| 0 <= j < b@.len() implies T::key_lt(x.key(), (#[trigger] b@[j]).key()) by {
                    assert(b@[j] == b0[j]);
                }
            }
            assert forall|i: int| 0 <= i < asc@.len() implies (exists|j: int| a@.len() <= j < a0.len() && a0[j] == #[trigger] asc@[i])
                || (exists|j: int| b@.len() <= j < b0.len() && b0[j] == asc@[i]) by {
                if i < old_asc.len() {
                    assert(asc@[i] == old_asc[i]);
                }
            }
            assert forall|j: int| a@.len() <= j < a0.len() implies asc@.contains(#[trigger] a0[j]) by {
                if take_a && j == na - 1 {
                    assert(asc@[old_asc.len() as int] == a0[j]);
                } else {
                    let i = choose|i: int| 0 <= i < old_asc.len() && old_asc[i] == a0[j];
                    assert(asc@[i] == a0[j]);
                }
            }
            assert forall|j: int| b@.len() <= j < b0.len() implies asc@.contains(#[trigger] b0[j]) by {
                if !take_a && j == nb - 1 {
                    assert(asc@[old_asc.len() as int] == b0[j]);
                } else {
                    let i = choose|i: int| 0 <= i < old_asc.len() && old_asc[i] == b0[j];
                    assert(asc@[i] == b0[j]);
                }
            }
        }
    }
    let ghost asc0 = asc@;
    let mut r: Vec<T> = Vec::new();
    while asc.len() > 0
        invariant
            forall|i: int, j: int| 0 <= i < j < asc0.len() ==> T::key_lt((#[trigger] asc0[i]).key(), (#[trigger] asc0[j]).key()),
            asc@ == asc0.take(asc@.len() as int),
            asc@.len() <= asc0.len(),
            r@.len() + asc@.len() == asc0.len(),
            forall|i: int| 0 <= i < r@.len() ==> #[trigger] r@[i] == asc0[asc0.len() - 1 - i],
        decreases asc@.len(),
    {
        let x = asc.pop().unwrap();
        r.push(x);
        proof {
            assert(asc@ =~= asc0.take(asc@.len() as int));
        }
    }
    proof {
        assert forall|i: int, j: int| 0 <= i < j < r@.len() implies T::key_lt((#[trigger] r@[j]).key(), (#[trigger] r@[i]).key()) by {
            assert(r@[i] == asc0[asc0.len() - 1 - i]);
            assert(r@[j] == asc0[asc0.len() - 1 - j]);
        }
        assert forall|i: int| 0 <= i < r@.len() implies a0.contains(#[trigger] r@[i]) || b0.contains(r@[i]) by {
            let k = asc0.len() - 1 - i;
            assert(r@[i] == asc0[k]);
            if exists|j: int| 0 <= j < a0.len() && a0[j] == asc0[k] {
                let j = choose|j: int| 0 <= j < a0.len() && a0[j] == asc0[k];
            } else {
                let j = choose|j: int| 0 <= j < b0.len() && b0[j] == asc0[k];
            }
        }
        assert forall|j: int| 0 <= j < a0.len() implies r@.contains(#[trigger] a0[j]) by {
            let i = choose|i: int| 0 <= i < asc0.len() && asc0[i] == a0[j];
            assert(r@[asc0.len() - 1 - i] == asc0[i]);
        }
        assert forall|j: int| 0 <= j < b0.len() implies r@.contains(#[trigger] b0[j]) by {
            let i = choose|i: int| 0 <= i < asc0.len() && asc0[i] == b0[j];
            assert(r@[asc0.len() - 1 - i] == asc0[i]);
        }
    }
    r
}

/// The items of `items` in strictly descending key order, by merge sort.
fn sort_descending<T: MirrorItem>(items: Vec<T>) -> (r: Vec<T>)
    requires
        unique_keys(items@),
    ensures
        strictly_descending(r@),
        r@.len() == items@.len(),
        forall|i: int| 0 <= i < r@.len() ==> items@.contains(#[trigger] r@[i]),
        forall|i: int| 0 <= i < items@.len() ==> r@.contains(#[trigger] items@[i]),
    decreases items@.len(),
{
    let ghost orig = items@;
    let n = items.len();
    if n <= 1 {
        proof {
            assert forall|i: int| 0 <= i < n implies orig.contains(#[trigger] orig[i]) by {
            }
        }
        return items;
    }
    let mid = n / 2;
    let mut left = items;
    let right = left.split_off(mid);
    let ghost lv = left@;
    let ghost rv = right@;
    proof {
        assert forall|i: int, j: int| 0 <= i < lv.len() && 0 <= j < lv.len() && i != j implies (#[trigger] lv[i]).key()
            != (#[trigger] lv[j]).key() by {
            assert(lv[i] == orig[i]);
            assert(lv[j] == orig[j]);
        }
        assert forall|i: int, j: int| 0 <= i < rv.len() && 0 <= j < rv.len() && i != j implies (#[trigger] rv[i]).key()
            != (#[trigger] rv[j]).key() by {
            assert(rv[i] == orig[mid + i]);
            assert(rv[j] == orig[mid + j]);
        }
    }
    let a = sort_descending(left);
    let b = sort_descending(right);
    proof {
        assert forall|i: int, j: int| 0 <= i < a@.len() && 0 <= j < b@.len() implies (#[trigger] a@[i]).key()
            != (#[trigger] b@[j]).key() by {
            let p = choose|p: int| 0 <= p < lv.len() && lv[p] == a@[i];
            let q = choose|q: int| 0 <= q < rv.len() && rv[q] == b@[j];
            assert(lv[p] == orig[p]);
            assert(rv[q] == orig[mid + q]);
        }
    }
    let r = merge_descending(a, b);
    proof {
        assert forall|i: int| 0 <= i < r@.len() implies orig.contains(#[trigger] r@[i]) by {
            if a@.contains(r@[i]) {
                let k = choose|k: int| 0 <= k < a@.len() && a@[k] == r@[i];
                let p = choose|p: int| 0 <= p < lv.len() && lv[p] == a@[k];
                assert(orig[p] == lv[p]);
            } else {
                let k = choose|k: int| 0 <= k < b@.len() && b@[k] == r@[i];
                let q = choose|q: int| 0 <= q < rv.len() && rv[q] == b@[k];
                assert(orig[mid + q] == rv[q]);
            }
        }
        assert forall|i: int| 0 <= i < orig.len() implies r@.contains(#[trigger] orig[i]) by {
            if i < mid {
                assert(lv[i] == orig[i]);
                let k = choose|k: int| 0 <= k < a@.len() && a@[k] == lv[i];
            } else {
                assert(rv[i - mid] == orig[i]);
                let k = choose|k: int| 0 <= k < b@.len() && b@[k] == rv[i - mid];
            }
        }
    }
    r
}

/// The head of a descending run, as an optional cursor.
pub open spec fn cursor_key<T: MirrorItem>(cur: Option<T>, k: T::Key) -> bool {
    cur is Some && cur->0.key() == k
}

/// The state of the merge walk on one side: the cursor and the items behind
/// it, all from `orig`, the cursor's key below every key behind it.
pub open spec fn side_ok<T: MirrorItem>(orig: Seq<T>, cur: Option<T>, rest: Seq<T>) -> bool {
    &&& forall|i: int| 0 <= i < rest.len() ==> orig.contains(#[trigger] rest[i])
    &&& cur is Some ==> orig.contains(cur->0)
    &&& strictly_descending(rest)
    &&& cur is Some ==> forall|i: int| 0 <= i < rest.len() ==> T::key_lt(cur->0.key(), (#[trigger] rest[i]).key())
    &&& cur is None ==> rest.len() == 0
}

/// Every key of `orig` is in `out`, at the cursor or behind it.
pub open spec fn side_covered<T: MirrorItem>(
    orig: Seq<T>,
    out: Seq<ChangeRecord<T>>,
    cur: Option<T>,
    rest: Seq<T>,
) -> bool {
    forall|k: T::Key| #[trigger] has_key(orig, k) ==> has_record_key(out, k) || cursor_key(cur, k) || has_key(rest, k)
}

proof fn lemma_pop_side<T: MirrorItem>(orig: Seq<T>, before: Seq<T>, cur: Option<T>, after: Seq<T>)
    requires
        forall|i: int| 0 <= i < before.len() ==> orig.contains(#[trigger] before[i]),
        strictly_descending(before),
        before.len() > 0 ==> cur == Some(before[before.len() - 1]) && after == before.subrange(0, before.len() - 1),
        before.len() == 0 ==> cur is None && after == before,
    ensures
        side_ok(orig, cur, after),
        forall|k: T::Key| #[trigger] has_key(before, k) <==> cursor_key(cur, k) || has_key(after, k),
{
    assert forall|k: T::Key| #[trigger] has_key(before, k) <==> cursor_key(cur, k) || has_key(after, k) by {
        if has_key(before, k) {
            let i = choose|i: int| 0 <= i < before.len() && before[i].key() == k;
            if i < before.len() - 1 {
                assert(after[i] == before[i]);
            }
        }
        if has_key(after, k) {
            let i = choose|i: int| 0 <= i < after.len() && after[i].key() == k;
            assert(after[i] == before[i]);
        }
    }
    if before.len() > 0 {
        assert forall|i: int| 0 <= i < after.len() implies T::key_lt(cur->0.key(), (#[trigger] after[i]).key()) by {
            assert(after[i] == before[i]);
        }
        assert(orig.contains(before[before.len() - 1]));
        assert forall|i: int| 0 <= i < after.len() implies orig.contains(#[trigger] after[i]) by {
            assert(after[i] == before[i]);
        }
    }
}

proof fn lemma_push_record<T: MirrorItem>(
    old_out: Seq<ChangeRecord<T>>,
    out: Seq<ChangeRecord<T>>,
    rec: ChangeRecord<T>,
)
    requires
        out == old_out.push(rec),
    ensures
        forall|k: T::Key| #[trigger] has_record_key(out, k) <==> has_record_key(old_out, k) || rec.item.key() == k,
{
    assert forall|k: T::Key| #[trigger] has_record_key(out, k) <==> has_record_key(old_out, k) || rec.item.key() == k by {
        if has_record_key(old_out, k) {
            let i = choose|i: int| 0 <= i < old_out.len() && old_out[i].item.key() == k;
            assert(out[i] == old_out[i]);
        }
        if rec.item.key() == k {
            assert(out[old_out.len() as int] == rec);
        }
        if has_record_key(out, k) {
            let i = choose|i: int| 0 <= i < out.len() && out[i].item.key() == k;
            if i < old_out.len() {
                assert(out[i] == old_out[i]);
            }
        }
    }
}

/// Every record of `out` has a key below every key still to come on a side.
pub open spec fn below_side<T: MirrorItem>(out: Seq<ChangeRecord<T>>, cur: Option<T>, rest: Seq<T>) -> bool {
    &&& forall|i: int, j: int| 0 <= i < out.len() && 0 <= j < rest.len() ==> T::key_lt(
        (#[trigger] out[i]).item.key(), (#[trigger] rest[j]).key())
    &&& cur is Some ==> forall|i: int| 0 <= i < out.len() ==> T::key_lt((#[trigger] out[i]).item.key(), cur->0.key())
}

/// Reconciles a cache snapshot with a remote snapshot. Both are sorted by key
/// and walked together: a key only in the cache gives `Delete` of the cached
/// item, a key only in the remote snapshot gives `Upsert` of the remote item,
/// and a key on both sides gives `Upsert` of the remote item where it
/// supersedes the cached one or is always re-synchronised, `NoChange` else.
/// The records come in ascending key order, one per key.
pub fn diff<T: MirrorItem>(cache: Vec<T>, remote: Vec<T>) -> (out: Vec<ChangeRecord<T>>)
    requires
        unique_keys(cache@),
        unique_keys(remote@),
    ensures
        is_diff_of(cache@, remote@, out@),
{
    let ghost c0 = cache@;
    let ghost r0 = remote@;
    let mut cs = sort_descending(cache);
    let mut rs = sort_descending(remote);
    proof {
        T::lemma_key_order();
        assert forall|k: T::Key| #[trigger] has_key(c0, k) implies has_key(cs@, k) by {
            let i = choose|i: int| 0 <= i < c0.len() && c0[i].key() == k;
            assert(cs@.contains(c0[i]));
        }
        assert forall|k: T::Key| #[trigger] has_key(r0, k) implies has_key(rs@, k) by {
            let i = choose|i: int| 0 <= i < r0.len() && r0[i].key() == k;
            assert(rs@.contains(r0[i]));
        }
    }
    let ghost cs0 = cs@;
    let ghost rs0 = rs@;
    let mut cc = cs.pop();
    let mut rc = rs.pop();
    proof {
        lemma_pop_side(c0, cs0, cc, cs@);
        lemma_pop_side(r0, rs0, rc, rs@);
    }
    let mut out: Vec<ChangeRecord<T>> = Vec::new();
    loop
        invariant
            side_ok(c0, cc, cs@),
            side_ok(r0, rc, rs@),
            side_covered(c0, out@, cc, cs@),
            side_covered(r0, out@, rc, rs@),
            records_ascending(out@),
            below_side(out@, cc, cs@),
            below_side(out@, rc, rs@),
            forall|k: T::Key| #[trigger] has_record_key(out@, k) ==> has_key(c0, k) || has_key(r0, k),
            forall|i: int| 0 <= i < out@.len() ==> record_is_correct(c0, r0, #[trigger] out@[i]),
        ensures
            cc is None && rc is None,
            side_ok(c0, cc, cs@),
            side_ok(r0, rc, rs@),
            side_covered(c0, out@, cc, cs@),
            side_covered(r0, out@, rc, rs@),
            records_ascending(out@),
            forall|k: T::Key| #[trigger] has_record_key(out@, k) ==> has_key(c0, k) || has_key(r0, k),
            forall|i: int| 0 <= i < out@.len() ==> record_is_correct(c0, r0, #[trigger] out@[i]),
        decreases cs@.len() + rs@.len() + (if cc is Some { 1int } else { 0int }) + (if rc is Some {
            1int
        } else {
            0int
        }),
    {
        proof {
            T::lemma_key_order();
        }
        let ghost old_out = out@;
        let ghost cs_before = cs@;
        let ghost rs_before = rs@;
        match (cc, rc) {
            (None, None) => {
                cc = None;
                rc = None;
                break;
            },
            (Some(x), None) => {
                proof {
                    assert(!has_key(r0, x.key()));
                }
                out.push(ChangeRecord { kind: ChangeKind::Delete, item: x });
                proof {
                    lemma_push_record(old_out, out@, out@[old_out.len() as int]);
                }
                cc = cs.pop();
                rc = None;
                proof {
                    lemma_pop_side(c0, cs_before, cc, cs@);
                }
            },
            (None, Some(y)) => {
                proof {
                    assert(!has_key(c0, y.key()));
                }
                out.push(ChangeRecord { kind: ChangeKind::Upsert, item: y });
                proof {
                    lemma_push_record(old_out, out@, out@[old_out.len() as int]);
                }
                rc = rs.pop();
                cc = None;
                proof {
                    lemma_pop_side(r0, rs_before, rc, rs@);
                }
            },
            (Some(x), Some(y)) => {
                match y.compare_keys(&x) {
                    Ordering::Less => {
                        proof {
                            assert(!has_key(c0, y.key()));
                        }
                        out.push(ChangeRecord { kind: ChangeKind::Upsert, item: y });
                        proof {
                            lemma_push_record(old_out, out@, out@[old_out.len() as int]);
                        }
                        rc = rs.pop();
                        cc = Some(x);
                        proof {
                            lemma_pop_side(r0, rs_before, rc, rs@);
                        }
                    },
                    Ordering::Greater => {
                        proof {
                            assert(!has_key(r0, x.key()));
                        }
                        out.push(ChangeRecord { kind: ChangeKind::Delete, item: x });
                        proof {
                            lemma_push_record(old_out, out@, out@[old_out.len() as int]);
                        }
                        cc = cs.pop();
                        rc = Some(y);
                        proof {
                            lemma_pop_side(c0, cs_before, cc, cs@);
                        }
                    },
                    Ordering::Equal => {
                        let kind = if y.is_fresher_than(&x) || y.needs_resync() {
                            ChangeKind::Upsert
                        } else {
                            ChangeKind::NoChange
                        };
                        proof {
                            let j = choose|j: int| 0 <= j < c0.len() && c0[j] == x;
                            assert(c0[j].key() == y.key());
                        }
                        out.push(ChangeRecord { kind, item: y });
                        proof {
                            lemma_push_record(old_out, out@, out@[old_out.len() as int]);
                        }
                        cc = cs.pop();
                        rc = rs.pop();
                        proof {
                            lemma_pop_side(c0, cs_before, cc, cs@);
                            lemma_pop_side(r0, rs_before, rc, rs@);
                        }
                    },
                }
            },
        }
    }
    proof {
        assert forall|k: T::Key| has_record_key(out@, k) <==> has_key(c0, k) || has_key(r0, k) by {
            if has_key(c0, k) {
                assert(has_record_key(out@, k));
            }
            if has_key(r0, k) {
                assert(has_record_key(out@, k));
            }
        }
    }
    out
}

} // verus!
