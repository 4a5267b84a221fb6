//! The library's laws: properties of the sort stated over its specification
//! functions and proved once for all inputs.

use vstd::prelude::*;
use crate::client::{bot, valid_client, Client};
use crate::partition::{
    filter_key, group_keys, insert_key, key_of, keys_sorted, lemma_filter_key_all,
};
use crate::rows::{
    first_inside, first_left, insert_xy, lemma_first_inside_spec, lemma_first_left_spec,
    lemma_insert_xy_at, lemma_remove_xy_sorted, lemma_sort_bucket_multiset, lemma_sort_xy_sorted,
    next_rows, row_rest, sort_bucket_spec, sort_xy, xy_lt, xy_sorted,
};
use crate::sorting::{cat_nested, cat_rows, sort_clients_spec, sorted_by_key};

verus! {

/// Inserting into a strictly ascending key list keeps it strictly ascending,
/// and the front stays the smallest of the old front and the new key.
proof fn lemma_insert_key_sorted(k: i64, keys: Seq<i64>)
    requires
        keys_sorted(keys),
    ensures
        keys_sorted(insert_key(k, keys)),
        insert_key(k, keys).len() > 0,
        insert_key(k, keys)[0] == if keys.len() == 0 {
            k
        } else if keys[0] < k {
            keys[0]
        } else {
            k
        },
    decreases keys.len(),
{
    let r = insert_key(k, keys);
    if keys.len() == 0 {
    } else if keys[0] < k {
        let d = keys.drop_first();
        assert(forall|j: int| 0 <= j < d.len() ==> #[trigger] d[j] == keys[j + 1]);
        lemma_insert_key_sorted(k, d);
        let t = insert_key(k, d);
        assert(r == seq![keys[0]] + t);
        assert(keys[0] < t[0]);
        assert forall|a: int, b: int| 0 <= a < b < r.len() implies r[a] < r[b] by {
            if a == 0 {
                assert(r[b] == t[b - 1]);
                if b > 1 {
                    assert(t[0] < t[b - 1]);
                }
            } else {
                assert(r[a] == t[a - 1] && r[b] == t[b - 1]);
            }
        }
    } else if keys[0] == k {
    } else {
        assert(r == seq![k] + keys);
        assert forall|a: int, b: int| 0 <= a < b < r.len() implies r[a] < r[b] by {
            if a == 0 && b > 1 {
                assert(keys[0] < keys[b - 1]);
            }
        }
    }
}

/// The key list a grouping pass builds is strictly ascending.
pub proof fn lemma_group_keys_sorted(s: Seq<Client>, by_workspace: bool)
    ensures
        keys_sorted(group_keys(s, by_workspace)),
    decreases s.len(),
{
    if s.len() > 0 {
        lemma_group_keys_sorted(s.drop_last(), by_workspace);
        lemma_insert_key_sorted(
            key_of(s.last(), by_workspace),
            group_keys(s.drop_last(), by_workspace),
        );
    }
}

/// A filtered client occurs in the sequence it was filtered from.
proof fn lemma_filter_key_contains(s: Seq<Client>, by_workspace: bool, k: i64, c: Client)
    requires
        filter_key(s, by_workspace, k).contains(c),
    ensures
        s.contains(c),
    decreases s.len(),
{
    let f = filter_key(s, by_workspace, k);
    let i = choose|i: int| 0 <= i < f.len() && f[i] == c;
    let fd = filter_key(s.drop_last(), by_workspace, k);
    if key_of(s.last(), by_workspace) == k && i == f.len() - 1 {
        assert(s[s.len() - 1] == c);
    } else {
        assert(fd[i] == c);
        lemma_filter_key_contains(s.drop_last(), by_workspace, k, c);
        let w = choose|w: int| 0 <= w < s.drop_last().len() && s.drop_last()[w] == c;
        assert(s[w] == c);
    }
}

/// Every client of a sorted bucket carries the bucket's key.
proof fn lemma_bucket_elem_key(t: Seq<Client>, by_workspace: bool, k: i64)
    ensures
        forall|i: int|
            0 <= i < sort_bucket_spec(filter_key(t, by_workspace, k)).len() ==> key_of(
                #[trigger] sort_bucket_spec(filter_key(t, by_workspace, k))[i],
                by_workspace,
            ) == k,
{
    broadcast use vstd::seq_lib::group_to_multiset_ensures;

    let f = filter_key(t, by_workspace, k);
    let b = sort_bucket_spec(f);
    lemma_sort_bucket_multiset(f);
    lemma_filter_key_all(t, by_workspace, k);
    assert forall|i: int| 0 <= i < b.len() implies key_of(#[trigger] b[i], by_workspace) == k by {
        assert(b.contains(b[i]));
        assert(b.to_multiset().count(b[i]) > 0);
        assert(f.to_multiset().count(b[i]) > 0);
        assert(f.contains(b[i]));
        let w = choose|w: int| 0 <= w < f.len() && f[w] == b[i];
        assert(key_of(f[w], by_workspace) == k);
    }
}

/// Every client of a sorted bucket occurs in the clients it was drawn from.
proof fn lemma_bucket_elem_of(t: Seq<Client>, by_workspace: bool, k: i64)
    ensures
        forall|i: int|
            0 <= i < sort_bucket_spec(filter_key(t, by_workspace, k)).len() ==> t.contains(
                #[trigger] sort_bucket_spec(filter_key(t, by_workspace, k))[i],
            ),
{
    broadcast use vstd::seq_lib::group_to_multiset_ensures;

    let f = filter_key(t, by_workspace, k);
    let b = sort_bucket_spec(f);
    lemma_sort_bucket_multiset(f);
    assert forall|i: int| 0 <= i < b.len() implies t.contains(#[trigger] b[i]) by {
        assert(b.contains(b[i]));
        assert(b.to_multiset().count(b[i]) > 0);
        assert(f.to_multiset().count(b[i]) > 0);
        assert(f.contains(b[i]));
        lemma_filter_key_contains(t, by_workspace, k, b[i]);
    }
}

/// Concatenated buckets in ascending key order have non-decreasing keys, all
/// bounded by the last bucket key.
proof fn lemma_cat_rows_mono(s: Seq<Client>, by_workspace: bool, keys: Seq<i64>)
    requires
        keys_sorted(keys),
    ensures
        forall|i: int, j: int|
            0 <= i <= j < cat_rows(s, by_workspace, keys).len() ==> key_of(
                #[trigger] cat_rows(s, by_workspace, keys)[i],
                by_workspace,
            ) <= key_of(#[trigger] cat_rows(s, by_workspace, keys)[j], by_workspace),
        forall|i: int|
            0 <= i < cat_rows(s, by_workspace, keys).len() ==> keys.len() > 0 && key_of(
                #[trigger] cat_rows(s, by_workspace, keys)[i],
                by_workspace,
            ) <= keys.last(),
    decreases keys.len(),
{
    if keys.len() > 0 {
        let kd = keys.drop_last();
        assert(forall|j: int| 0 <= j < kd.len() ==> #[trigger] kd[j] == keys[j]);
        lemma_cat_rows_mono(s, by_workspace, kd);
        lemma_bucket_elem_key(s, by_workspace, keys.last());
        let prefix = cat_rows(s, by_workspace, kd);
        let block = sort_bucket_spec(filter_key(s, by_workspace, keys.last()));
        let r = cat_rows(s, by_workspace, keys);
        assert(r == prefix + block);
        assert forall|i: int| 0 <= i < r.len() implies keys.len() > 0 && key_of(
            #[trigger] r[i],
            by_workspace,
        ) <= keys.last() by {
            if i < prefix.len() {
                assert(r[i] == prefix[i]);
                assert(kd.last() == keys[keys.len() - 2]);
                assert(keys[keys.len() - 2] < keys.last());
            } else {
                assert(r[i] == block[i - prefix.len()]);
            }
        }
        assert forall|i: int, j: int| 0 <= i <= j < r.len() implies key_of(
            #[trigger] r[i],
            by_workspace,
        ) <= key_of(#[trigger] r[j], by_workspace) by {
            if j < prefix.len() {
                assert(r[i] == prefix[i] && r[j] == prefix[j]);
            } else if i >= prefix.len() {
                assert(r[i] == block[i - prefix.len()] && r[j] == block[j - prefix.len()]);
            } else {
                assert(r[j] == block[j - prefix.len()]);
                assert(key_of(r[j], by_workspace) == keys.last());
            }
        }
    }
}

/// The fully grouped output has non-decreasing monitor keys, and within one
/// monitor non-decreasing workspace keys, all monitors bounded by the last
/// monitor key.
proof fn lemma_cat_nested_mono(s: Seq<Client>, keys: Seq<i64>)
    requires
        keys_sorted(keys),
    ensures
        forall|i: int, j: int|
            0 <= i <= j < cat_nested(s, keys).len() ==> (#[trigger] cat_nested(s, keys)[i]).monitor
                <= (#[trigger] cat_nested(s, keys)[j]).monitor,
        forall|i: int, j: int|
            0 <= i <= j < cat_nested(s, keys).len() && (#[trigger] cat_nested(s, keys)[i]).monitor
                == (#[trigger] cat_nested(s, keys)[j]).monitor ==> cat_nested(s, keys)[i].workspace
                <= cat_nested(s, keys)[j].workspace,
        forall|i: int|
            0 <= i < cat_nested(s, keys).len() ==> keys.len() > 0 && (#[trigger] cat_nested(
                s,
                keys,
            )[i]).monitor <= keys.last(),
    decreases keys.len(),
{
    if keys.len() > 0 {
        let kd = keys.drop_last();
        assert(forall|j: int| 0 <= j < kd.len() ==> #[trigger] kd[j] == keys[j]);
        lemma_cat_nested_mono(s, kd);
        let t = filter_key(s, false, keys.last());
        let wk = group_keys(t, true);
        lemma_group_keys_sorted(t, true);
        lemma_cat_rows_mono(t, true, wk);
        lemma_filter_key_all(s, false, keys.last());
        let prefix = cat_nested(s, kd);
        let block = sorted_by_key(t, true);
        let r = cat_nested(s, keys);
        assert(r == prefix + block);
        assert forall|i: int| 0 <= i < block.len() implies (#[trigger] block[i]).monitor
            == keys.last() by {
            lemma_block_monitor(s, keys.last(), i);
        }
        assert forall|i: int| 0 <= i < r.len() implies keys.len() > 0 && (#[trigger] r[i]).monitor
            <= keys.last() by {
            if i < prefix.len() {
                assert(r[i] == prefix[i]);
                assert(kd.last() == keys[keys.len() - 2]);
                assert(keys[keys.len() - 2] < keys.last());
            } else {
                assert(r[i] == block[i - prefix.len()]);
            }
        }
        assert forall|i: int, j: int| 0 <= i <= j < r.len() implies (#[trigger] r[i]).monitor
            <= (#[trigger] r[j]).monitor by {
            if j < prefix.len() {
                assert(r[i] == prefix[i] && r[j] == prefix[j]);
            } else if i >= prefix.len() {
                assert(r[i] == block[i - prefix.len()] && r[j] == block[j - prefix.len()]);
            } else {
                assert(r[i] == prefix[i] && r[j] == block[j - prefix.len()]);
            }
        }
        assert forall|i: int, j: int|
            0 <= i <= j < r.len() && (#[trigger] r[i]).monitor == (#[trigger] r[j]).monitor
            implies r[i].workspace <= r[j].workspace by {
            if j < prefix.len() {
                assert(r[i] == prefix[i] && r[j] == prefix[j]);
            } else if i >= prefix.len() {
                assert(r[i] == block[i - prefix.len()] && r[j] == block[j - prefix.len()]);
                assert(key_of(r[i], true) <= key_of(r[j], true));
            } else {
                assert(r[i] == prefix[i] && r[j] == block[j - prefix.len()]);
                assert(r[i].monitor <= kd.last() && kd.last() < keys.last());
                assert(r[j].monitor == keys.last());
            }
        }
    }
}

/// One monitor's block holds that monitor's clients only.
proof fn lemma_block_monitor(s: Seq<Client>, m: i64, i: int)
    requires
        0 <= i < sorted_by_key(filter_key(s, false, m), true).len(),
    ensures
        sorted_by_key(filter_key(s, false, m), true)[i].monitor == m,
{
    let t = filter_key(s, false, m);
    let wk = group_keys(t, true);
    lemma_filter_key_all(s, false, m);
    lemma_cat_rows_elem_of(t, true, wk);
    let e = sorted_by_key(t, true)[i];
    assert(t.contains(e));
    let w = choose|w: int| 0 <= w < t.len() && t[w] == e;
    assert(key_of(t[w], false) == m);
}

/// Every client of concatenated sorted buckets occurs in the clients the
/// buckets were drawn from.
proof fn lemma_cat_rows_elem_of(t: Seq<Client>, by_workspace: bool, keys: Seq<i64>)
    ensures
        forall|i: int|
            0 <= i < cat_rows(t, by_workspace, keys).len() ==> t.contains(
                #[trigger] cat_rows(t, by_workspace, keys)[i],
            ),
    decreases keys.len(),
{
    if keys.len() > 0 {
        lemma_cat_rows_elem_of(t, by_workspace, keys.drop_last());
        lemma_bucket_elem_of(t, by_workspace, keys.last());
        let prefix = cat_rows(t, by_workspace, keys.drop_last());
        let block = sort_bucket_spec(filter_key(t, by_workspace, keys.last()));
        let r = cat_rows(t, by_workspace, keys);
        assert(r == prefix + block);
        assert forall|i: int| 0 <= i < r.len() implies t.contains(#[trigger] r[i]) by {
            if i < prefix.len() {
                assert(r[i] == prefix[i]);
            } else {
                assert(r[i] == block[i - prefix.len()]);
            }
        }
    }
}

/// Partition respecting: groups never interleave in the output.  Unless
/// monitors are ignored, monitor keys are non-decreasing along the output,
/// so each monitor's clients form one contiguous block, blocks in ascending
/// key order; under full grouping the same holds for workspace keys within
/// one monitor, and when monitors are ignored workspace keys are
/// non-decreasing along the whole output.
pub proof fn lemma_partition_respecting(
    s: Seq<Client>,
    ignore_workspaces: bool,
    ignore_monitors: bool,
)
    requires
        !(ignore_workspaces && ignore_monitors),
    ensures
        !ignore_monitors ==> forall|i: int, j: int|
            0 <= i <= j < sort_clients_spec(s, ignore_workspaces, ignore_monitors).len()
                ==> (#[trigger] sort_clients_spec(s, ignore_workspaces, ignore_monitors)[i]).monitor
                <= (#[trigger] sort_clients_spec(s, ignore_workspaces, ignore_monitors)[j]).monitor,
        ignore_monitors ==> forall|i: int, j: int|
            0 <= i <= j < sort_clients_spec(s, ignore_workspaces, ignore_monitors).len()
                ==> (#[trigger] sort_clients_spec(s, ignore_workspaces, ignore_monitors)[
            i]).workspace <= (#[trigger] sort_clients_spec(s, ignore_workspaces, ignore_monitors)[
            j]).workspace,
        !ignore_workspaces && !ignore_monitors ==> forall|i: int, j: int|
            0 <= i <= j < sort_clients_spec(s, ignore_workspaces, ignore_monitors).len()
                && (#[trigger] sort_clients_spec(s, ignore_workspaces, ignore_monitors)[i]).monitor
                == (#[trigger] sort_clients_spec(s, ignore_workspaces, ignore_monitors)[j]).monitor
                ==> sort_clients_spec(s, ignore_workspaces, ignore_monitors)[i].workspace
                <= sort_clients_spec(s, ignore_workspaces, ignore_monitors)[j].workspace,
{
    if ignore_workspaces {
        lemma_group_keys_sorted(s, false);
        lemma_cat_rows_mono(s, false, group_keys(s, false));
    } else if ignore_monitors {
        lemma_group_keys_sorted(s, true);
        lemma_cat_rows_mono(s, true, group_keys(s, true));
    } else {
        lemma_group_keys_sorted(s, false);
        lemma_cat_nested_mono(s, group_keys(s, false));
    }
}

/// Putting a removed client back restores the queue, provided everything
/// before its place reads strictly earlier.
proof fn lemma_insert_xy_restore(q: Seq<Client>, i: int)
    requires
        xy_sorted(q),
        0 <= i < q.len(),
        forall|k: int| 0 <= k < i ==> xy_lt(#[trigger] q[k], q[i]),
    ensures
        insert_xy(q[i], q.remove(i)) == q,
{
    q.remove_ensures(i);
    lemma_insert_xy_at(q[i], q.remove(i), i);
    assert(q.remove(i).insert(i, q[i]) =~= q);
}

/// Re-sorting what a row in progress emits restores the queue it consumed.
proof fn lemma_row_rest_restore(q: Seq<Client>, bottom: int)
    requires
        xy_sorted(q),
    ensures
        sort_xy(row_rest(q, bottom)) == q,
    decreases q.len(), 1int,
{
    lemma_first_inside_spec(q, bottom);
    match first_inside(q, bottom) {
        None => {
            lemma_next_rows_restore(q);
        },
        Some(i) => {
            let c = q[i];
            lemma_first_left_spec(q, c.x as int, bot(c));
            match first_left(q, c.x as int, bot(c)) {
                Some(j) => {
                    lemma_remove_xy_sorted(q, j);
                    lemma_row_rest_restore(q.remove(j), bot(q[j]));
                    let rest = row_rest(q.remove(j), bot(q[j]));
                    let r = seq![q[j]] + rest;
                    assert(row_rest(q, bottom) == r);
                    assert(r[0] == q[j]);
                    assert(r.drop_first() =~= rest);
                    assert(sort_xy(r) == insert_xy(q[j], sort_xy(rest)));
                    assert forall|k: int| 0 <= k < j implies xy_lt(#[trigger] q[k], q[j]) by {
                        assert(!xy_lt(q[j], q[k]));
                        if !xy_lt(q[k], q[j]) {
                            assert(q[k].x == q[j].x && q[k].y == q[j].y);
                            assert(q[k].x < c.x as int && q[k].y < bot(c));
                            assert(false);
                        }
                    }
                    lemma_insert_xy_restore(q, j);
                },
                None => {
                    lemma_remove_xy_sorted(q, i);
                    lemma_row_rest_restore(q.remove(i), bottom);
                    let rest = row_rest(q.remove(i), bottom);
                    let r = seq![q[i]] + rest;
                    assert(row_rest(q, bottom) == r);
                    assert(r[0] == q[i]);
                    assert(r.drop_first() =~= rest);
                    assert(sort_xy(r) == insert_xy(q[i], sort_xy(rest)));
                    assert forall|k: int| 0 <= k < i implies xy_lt(#[trigger] q[k], q[i]) by {
                        assert(!xy_lt(q[i], q[k]));
                        if !xy_lt(q[k], q[i]) {
                            assert(q[k].x == q[i].x && q[k].y == q[i].y);
                            assert(false);
                        }
                    }
                    lemma_insert_xy_restore(q, i);
                },
            }
        },
    }
}

/// Re-sorting the row extraction's output restores the sorted queue.
proof fn lemma_next_rows_restore(q: Seq<Client>)
    requires
        xy_sorted(q),
    ensures
        sort_xy(next_rows(q)) == q,
    decreases q.len(), 0int,
{
    if q.len() == 0 {
        assert(q =~= Seq::<Client>::empty());
    } else {
        let d = q.drop_first();
        assert(q.remove(0) =~= d);
        lemma_remove_xy_sorted(q, 0);
        lemma_row_rest_restore(d, bot(q[0]));
        let rest = row_rest(d, bot(q[0]));
        let r = seq![q[0]] + rest;
        assert(next_rows(q) == r);
        assert(r[0] == q[0]);
        assert(r.drop_first() =~= rest);
        assert(sort_xy(r) == insert_xy(q[0], sort_xy(rest)));
        lemma_insert_xy_restore(q, 0);
    }
}

/// Sorting one bucket's output again changes nothing.
proof fn lemma_sort_bucket_idempotent(g: Seq<Client>)
    ensures
        sort_bucket_spec(sort_bucket_spec(g)) == sort_bucket_spec(g),
{
    lemma_sort_xy_sorted(g);
    lemma_next_rows_restore(sort_xy(g));
}

/// Every key of an inserted list is the new key or one of the old keys.
proof fn lemma_insert_key_elems(k: i64, keys: Seq<i64>)
    ensures
        forall|i: int|
            0 <= i < insert_key(k, keys).len() ==> (#[trigger] insert_key(k, keys)[i] == k
                || keys.contains(insert_key(k, keys)[i])),
    decreases keys.len(),
{
    let r = insert_key(k, keys);
    if keys.len() == 0 {
    } else if keys[0] < k {
        let d = keys.drop_first();
        lemma_insert_key_elems(k, d);
        let t = insert_key(k, d);
        assert(r == seq![keys[0]] + t);
        assert forall|i: int| 0 <= i < r.len() implies (#[trigger] r[i] == k || keys.contains(
            r[i],
        )) by {
            if i == 0 {
                assert(keys[0] == r[i]);
                assert(keys.contains(r[i]));
            } else {
                assert(r[i] == t[i - 1]);
                if t[i - 1] != k {
                    let w = choose|w: int| 0 <= w < d.len() && d[w] == t[i - 1];
                    assert(keys[w + 1] == r[i]);
                    assert(keys.contains(r[i]));
                }
            }
        }
    } else if keys[0] == k {
        assert forall|i: int| 0 <= i < r.len() implies (#[trigger] r[i] == k || keys.contains(
            r[i],
        )) by {
            assert(keys[i] == r[i]);
            assert(keys.contains(r[i]));
        }
    } else {
        assert(r == seq![k] + keys);
        assert forall|i: int| 0 <= i < r.len() implies (#[trigger] r[i] == k || keys.contains(
            r[i],
        )) by {
            if i > 0 {
                assert(keys[i - 1] == r[i]);
                assert(keys.contains(r[i]));
            }
        }
    }
}

/// Every client's key occurs in the key list of its sequence.
proof fn lemma_group_keys_complete(s: Seq<Client>, by_workspace: bool)
    ensures
        forall|i: int|
            0 <= i < s.len() ==> group_keys(s, by_workspace).contains(
                key_of(#[trigger] s[i], by_workspace),
            ),
    decreases s.len(),
{
    if s.len() > 0 {
        let k0 = key_of(s.last(), by_workspace);
        let kk = group_keys(s.drop_last(), by_workspace);
        let r = group_keys(s, by_workspace);
        lemma_group_keys_complete(s.drop_last(), by_workspace);
        crate::partition::lemma_insert_key_keeps(k0, kk);
        assert forall|i: int| 0 <= i < s.len() implies r.contains(
            key_of(#[trigger] s[i], by_workspace),
        ) by {
            if i == s.len() - 1 {
                let w = choose|w: int| 0 <= w < r.len() && r[w] == k0;
                assert(r[w] == key_of(s[i], by_workspace));
            } else {
                assert(s.drop_last()[i] == s[i]);
                assert(kk.contains(key_of(s[i], by_workspace)));
                let u = choose|u: int| 0 <= u < kk.len() && kk[u] == key_of(s[i], by_workspace);
                let w = choose|w: int| 0 <= w < r.len() && r[w] == kk[u];
                assert(r[w] == key_of(s[i], by_workspace));
            }
        }
    }
}

/// Every key in the key list is some client's key.
proof fn lemma_group_keys_sound(s: Seq<Client>, by_workspace: bool)
    ensures
        forall|w: int|
            0 <= w < group_keys(s, by_workspace).len() ==> exists|i: int|
                0 <= i < s.len() && key_of(s[i], by_workspace) == #[trigger] group_keys(
                    s,
                    by_workspace,
                )[w],
    decreases s.len(),
{
    if s.len() > 0 {
        let k0 = key_of(s.last(), by_workspace);
        let kk = group_keys(s.drop_last(), by_workspace);
        let r = group_keys(s, by_workspace);
        lemma_group_keys_sound(s.drop_last(), by_workspace);
        lemma_insert_key_elems(k0, kk);
        assert forall|w: int| 0 <= w < r.len() implies exists|i: int|
            0 <= i < s.len() && key_of(s[i], by_workspace) == #[trigger] r[w] by {
            if r[w] == k0 {
                assert(key_of(s[s.len() - 1], by_workspace) == r[w]);
            } else {
                assert(kk.contains(r[w]));
                let u = choose|u: int| 0 <= u < kk.len() && kk[u] == r[w];
                let i = choose|i: int|
                    0 <= i < s.drop_last().len() && key_of(s.drop_last()[i], by_workspace)
                        == kk[u];
                assert(key_of(s[i], by_workspace) == r[w]);
            }
        }
    }
}

/// Strictly ascending key lists with the same members are the same list.
proof fn lemma_keys_unique_eq(a: Seq<i64>, b: Seq<i64>)
    requires
        keys_sorted(a),
        keys_sorted(b),
        forall|k: i64| a.contains(k) <==> b.contains(k),
    ensures
        a == b,
    decreases a.len(),
{
    if a.len() == 0 {
        if b.len() > 0 {
            assert(b.contains(b[0]));
            assert(a.contains(b[0]));
            let i = choose|i: int| 0 <= i < a.len() && a[i] == b[0];
            assert(false);
        }
        assert(a =~= b);
    } else if b.len() == 0 {
        assert(a.contains(a[0]));
        assert(b.contains(a[0]));
        let i = choose|i: int| 0 <= i < b.len() && b[i] == a[0];
        assert(false);
    } else {
        assert(a.contains(a[0]));
        assert(b.contains(b[0]));
        assert(b.contains(a[0]));
        assert(a.contains(b[0]));
        let i = choose|i: int| 0 <= i < b.len() && b[i] == a[0];
        let j = choose|j: int| 0 <= j < a.len() && a[j] == b[0];
        assert(b[0] <= b[i] && a[0] <= a[j]);
        assert(a[0] == b[0]);
        let ad = a.drop_first();
        let bd = b.drop_first();
        assert(forall|u: int| 0 <= u < ad.len() ==> #[trigger] ad[u] == a[u + 1]);
        assert(forall|u: int| 0 <= u < bd.len() ==> #[trigger] bd[u] == b[u + 1]);
        assert forall|k: i64| ad.contains(k) <==> bd.contains(k) by {
            if ad.contains(k) {
                let u = choose|u: int| 0 <= u < ad.len() && ad[u] == k;
                assert(a[u + 1] == k);
                assert(a.contains(k));
                assert(k > a[0]);
                let v = choose|v: int| 0 <= v < b.len() && b[v] == k;
                assert(v >= 1);
                assert(bd[v - 1] == k);
                assert(bd.contains(k));
            }
            if bd.contains(k) {
                let u = choose|u: int| 0 <= u < bd.len() && bd[u] == k;
                assert(b[u + 1] == k);
                assert(b.contains(k));
                assert(k > b[0]);
                let v = choose|v: int| 0 <= v < a.len() && a[v] == k;
                assert(v >= 1);
                assert(ad[v - 1] == k);
                assert(ad.contains(k));
            }
        }
        lemma_keys_unique_eq(ad, bd);
        assert(a.len() == b.len());
        assert forall|u: int| 0 <= u < a.len() implies a[u] == b[u] by {
            if u > 0 {
                assert(ad[u - 1] == bd[u - 1]);
            }
        }
        assert(a =~= b);
    }
}

/// Filtering a concatenation filters each part.
proof fn lemma_filter_key_concat(a: Seq<Client>, b: Seq<Client>, by_workspace: bool, k: i64)
    ensures
        filter_key(a + b, by_workspace, k) == filter_key(a, by_workspace, k) + filter_key(
            b,
            by_workspace,
            k,
        ),
    decreases b.len(),
{
    if b.len() == 0 {
        assert(a + b =~= a);
        assert(filter_key(a, by_workspace, k) + filter_key(b, by_workspace, k) =~= filter_key(
            a,
            by_workspace,
            k,
        ));
    } else {
        assert((a + b).drop_last() =~= a + b.drop_last());
        assert((a + b).last() == b.last());
        lemma_filter_key_concat(a, b.drop_last(), by_workspace, k);
        if key_of(b.last(), by_workspace) == k {
            assert(filter_key(a, by_workspace, k) + filter_key(b, by_workspace, k) =~= (filter_key(
                a,
                by_workspace,
                k,
            ) + filter_key(b.drop_last(), by_workspace, k)).push(b.last()));
        }
    }
}

/// Filtering by the key every client carries returns everything.
proof fn lemma_filter_key_uniform(t: Seq<Client>, by_workspace: bool, k: i64)
    requires
        forall|i: int| 0 <= i < t.len() ==> key_of(#[trigger] t[i], by_workspace) == k,
    ensures
        filter_key(t, by_workspace, k) == t,
    decreases t.len(),
{
    if t.len() > 0 {
        assert(forall|i: int|
            0 <= i < t.len() - 1 ==> #[trigger] t.drop_last()[i] == t[i]);
        lemma_filter_key_uniform(t.drop_last(), by_workspace, k);
        assert(key_of(t.last(), by_workspace) == k);
        assert(t.drop_last().push(t.last()) =~= t);
    }
}

/// Filtering by a key no client carries returns nothing.
proof fn lemma_filter_key_vacuous(t: Seq<Client>, by_workspace: bool, k: i64)
    requires
        forall|i: int| 0 <= i < t.len() ==> key_of(#[trigger] t[i], by_workspace) != k,
    ensures
        filter_key(t, by_workspace, k) == Seq::<Client>::empty(),
    decreases t.len(),
{
    if t.len() > 0 {
        assert(forall|i: int|
            0 <= i < t.len() - 1 ==> #[trigger] t.drop_last()[i] == t[i]);
        lemma_filter_key_vacuous(t.drop_last(), by_workspace, k);
        assert(key_of(t.last(), by_workspace) != k);
    }
}

/// A client ends up in the filter of its own key.
proof fn lemma_filter_key_has(s: Seq<Client>, by_workspace: bool, i: int)
    requires
        0 <= i < s.len(),
    ensures
        filter_key(s, by_workspace, key_of(s[i], by_workspace)).contains(s[i]),
    decreases s.len(),
{
    let k = key_of(s[i], by_workspace);
    let f = filter_key(s, by_workspace, k);
    if i == s.len() - 1 {
        assert(f == filter_key(s.drop_last(), by_workspace, k).push(s.last()));
        assert(f[f.len() - 1] == s[i]);
    } else {
        assert(s.drop_last()[i] == s[i]);
        lemma_filter_key_has(s.drop_last(), by_workspace, i);
        let fd = filter_key(s.drop_last(), by_workspace, k);
        let w = choose|w: int| 0 <= w < fd.len() && fd[w] == s[i];
        assert(f[w] == s[i]);
    }
}

/// Every client of concatenated sorted buckets carries one of the bucket
/// keys.
proof fn lemma_cat_rows_elem_key_in(s: Seq<Client>, by_workspace: bool, keys: Seq<i64>)
    ensures
        forall|i: int|
            0 <= i < cat_rows(s, by_workspace, keys).len() ==> exists|w: int|
                0 <= w < keys.len() && key_of(
                    #[trigger] cat_rows(s, by_workspace, keys)[i],
                    by_workspace,
                ) == keys[w],
    decreases keys.len(),
{
    if keys.len() > 0 {
        let kd = keys.drop_last();
        assert(forall|j: int| 0 <= j < kd.len() ==> #[trigger] kd[j] == keys[j]);
        lemma_cat_rows_elem_key_in(s, by_workspace, kd);
        lemma_bucket_elem_key(s, by_workspace, keys.last());
        let prefix = cat_rows(s, by_workspace, kd);
        let block = sort_bucket_spec(filter_key(s, by_workspace, keys.last()));
        let r = cat_rows(s, by_workspace, keys);
        assert(r == prefix + block);
        assert forall|i: int| 0 <= i < r.len() implies exists|w: int|
            0 <= w < keys.len() && key_of(#[trigger] r[i], by_workspace) == keys[w] by {
            if i < prefix.len() {
                assert(r[i] == prefix[i]);
                let w = choose|w: int|
                    0 <= w < kd.len() && key_of(prefix[i], by_workspace) == kd[w];
                assert(key_of(r[i], by_workspace) == keys[w]);
            } else {
                assert(r[i] == block[i - prefix.len()]);
                assert(key_of(r[i], by_workspace) == keys[keys.len() - 1]);
            }
        }
    }
}

/// Filtering concatenated sorted buckets by one of their keys returns
/// exactly that key's sorted bucket.
proof fn lemma_cat_rows_filter(s: Seq<Client>, by_workspace: bool, keys: Seq<i64>, w: int)
    requires
        keys_sorted(keys),
        0 <= w < keys.len(),
    ensures
        filter_key(cat_rows(s, by_workspace, keys), by_workspace, keys[w]) == sort_bucket_spec(
            filter_key(s, by_workspace, keys[w]),
        ),
    decreases keys.len(),
{
    let kd = keys.drop_last();
    assert(forall|j: int| 0 <= j < kd.len() ==> #[trigger] kd[j] == keys[j]);
    let prefix = cat_rows(s, by_workspace, kd);
    let block = sort_bucket_spec(filter_key(s, by_workspace, keys.last()));
    let r = cat_rows(s, by_workspace, keys);
    assert(r == prefix + block);
    lemma_filter_key_concat(prefix, block, by_workspace, keys[w]);
    lemma_bucket_elem_key(s, by_workspace, keys.last());
    if w == keys.len() - 1 {
        lemma_filter_key_uniform(block, by_workspace, keys[w]);
        lemma_cat_rows_mono(s, by_workspace, kd);
        assert forall|i: int| 0 <= i < prefix.len() implies key_of(
            #[trigger] prefix[i],
            by_workspace,
        ) != keys[w] by {
            assert(key_of(prefix[i], by_workspace) <= kd.last());
            assert(kd.last() == keys[keys.len() - 2]);
        }
        lemma_filter_key_vacuous(prefix, by_workspace, keys[w]);
        assert(filter_key(r, by_workspace, keys[w]) =~= block);
    } else {
        lemma_cat_rows_filter(s, by_workspace, kd, w);
        assert forall|i: int| 0 <= i < block.len() implies key_of(
            #[trigger] block[i],
            by_workspace,
        ) != keys[w] by {
            assert(key_of(block[i], by_workspace) == keys.last());
        }
        lemma_filter_key_vacuous(block, by_workspace, keys[w]);
        assert(filter_key(r, by_workspace, keys[w]) =~= sort_bucket_spec(
            filter_key(s, by_workspace, keys[w]),
        ));
    }
}

/// A non-empty sorted bucket shows its key somewhere in the concatenation.
proof fn lemma_cat_rows_block_elem(s: Seq<Client>, by_workspace: bool, keys: Seq<i64>, w: int)
    requires
        0 <= w < keys.len(),
        sort_bucket_spec(filter_key(s, by_workspace, keys[w])).len() > 0,
    ensures
        exists|i: int|
            0 <= i < cat_rows(s, by_workspace, keys).len() && key_of(
                cat_rows(s, by_workspace, keys)[i],
                by_workspace,
            ) == keys[w],
    decreases keys.len(),
{
    let kd = keys.drop_last();
    assert(forall|j: int| 0 <= j < kd.len() ==> #[trigger] kd[j] == keys[j]);
    let prefix = cat_rows(s, by_workspace, kd);
    let block = sort_bucket_spec(filter_key(s, by_workspace, keys.last()));
    let r = cat_rows(s, by_workspace, keys);
    assert(r == prefix + block);
    if w == keys.len() - 1 {
        lemma_bucket_elem_key(s, by_workspace, keys.last());
        assert(r[prefix.len() as int] == block[0]);
        assert(key_of(r[prefix.len() as int], by_workspace) == keys[w]);
    } else {
        lemma_cat_rows_block_elem(s, by_workspace, kd, w);
        let i = choose|i: int|
            0 <= i < prefix.len() && key_of(prefix[i], by_workspace) == kd[w];
        assert(r[i] == prefix[i]);
        assert(key_of(r[i], by_workspace) == keys[w]);
    }
}

/// One flat pass over its own output finds the same keys again.
proof fn lemma_cat_rows_group_keys(s: Seq<Client>, by_workspace: bool)
    ensures
        group_keys(cat_rows(s, by_workspace, group_keys(s, by_workspace)), by_workspace)
            == group_keys(s, by_workspace),
{
    let gk = group_keys(s, by_workspace);
    let out = cat_rows(s, by_workspace, gk);
    let ok = group_keys(out, by_workspace);
    lemma_group_keys_sorted(s, by_workspace);
    lemma_group_keys_sorted(out, by_workspace);
    lemma_group_keys_complete(out, by_workspace);
    lemma_group_keys_sound(out, by_workspace);
    lemma_group_keys_sound(s, by_workspace);
    lemma_cat_rows_elem_key_in(s, by_workspace, gk);
    assert forall|k: i64| ok.contains(k) <==> gk.contains(k) by {
        if ok.contains(k) {
            let u = choose|u: int| 0 <= u < ok.len() && ok[u] == k;
            let i = choose|i: int| 0 <= i < out.len() && key_of(out[i], by_workspace) == ok[u];
            let w = choose|w: int|
                0 <= w < gk.len() && key_of(out[i], by_workspace) == gk[w];
            assert(gk[w] == k);
            assert(gk.contains(k));
        }
        if gk.contains(k) {
            let u = choose|u: int| 0 <= u < gk.len() && gk[u] == k;
            let i = choose|i: int| 0 <= i < s.len() && key_of(s[i], by_workspace) == gk[u];
            lemma_filter_key_has(s, by_workspace, i);
            let f = filter_key(s, by_workspace, k);
            let v = choose|v: int| 0 <= v < f.len() && f[v] == s[i];
            lemma_sort_bucket_multiset(f);
            lemma_cat_rows_block_elem(s, by_workspace, gk, u);
            let j = choose|j: int|
                0 <= j < out.len() && key_of(out[j], by_workspace) == gk[u];
            assert(ok.contains(key_of(out[j], by_workspace)));
        }
    }
    lemma_keys_unique_eq(ok, gk);
}

/// Re-running a flat pass over data whose per-key filters are already sorted
/// buckets reproduces the buckets.
proof fn lemma_rewrap(o: Seq<Client>, s: Seq<Client>, by_workspace: bool, keys: Seq<i64>)
    requires
        forall|w: int|
            0 <= w < keys.len() ==> filter_key(o, by_workspace, #[trigger] keys[w])
                == sort_bucket_spec(filter_key(s, by_workspace, keys[w])),
    ensures
        cat_rows(o, by_workspace, keys) == cat_rows(s, by_workspace, keys),
    decreases keys.len(),
{
    if keys.len() > 0 {
        let kd = keys.drop_last();
        assert(forall|j: int| 0 <= j < kd.len() ==> #[trigger] kd[j] == keys[j]);
        lemma_rewrap(o, s, by_workspace, kd);
        lemma_sort_bucket_idempotent(filter_key(s, by_workspace, keys.last()));
        assert(cat_rows(o, by_workspace, keys) =~= cat_rows(s, by_workspace, keys));
    }
}

/// One flat grouping pass is idempotent.
proof fn lemma_sorted_by_key_idem(s: Seq<Client>, by_workspace: bool)
    ensures
        sorted_by_key(sorted_by_key(s, by_workspace), by_workspace) == sorted_by_key(
            s,
            by_workspace,
        ),
{
    let gk = group_keys(s, by_workspace);
    let out = cat_rows(s, by_workspace, gk);
    lemma_cat_rows_group_keys(s, by_workspace);
    lemma_group_keys_sorted(s, by_workspace);
    assert forall|w: int| 0 <= w < gk.len() implies filter_key(
        out,
        by_workspace,
        #[trigger] gk[w],
    ) == sort_bucket_spec(filter_key(s, by_workspace, gk[w])) by {
        lemma_cat_rows_filter(s, by_workspace, gk, w);
    }
    lemma_rewrap(out, s, by_workspace, gk);
}

/// Every client of the fully grouped output carries one of the monitor keys.
proof fn lemma_cat_nested_elem_key_in(s: Seq<Client>, keys: Seq<i64>)
    ensures
        forall|i: int|
            0 <= i < cat_nested(s, keys).len() ==> exists|w: int|
                0 <= w < keys.len() && (#[trigger] cat_nested(s, keys)[i]).monitor == keys[w],
    decreases keys.len(),
{
    if keys.len() > 0 {
        let kd = keys.drop_last();
        assert(forall|j: int| 0 <= j < kd.len() ==> #[trigger] kd[j] == keys[j]);
        lemma_cat_nested_elem_key_in(s, kd);
        let prefix = cat_nested(s, kd);
        let block = sorted_by_key(filter_key(s, false, keys.last()), true);
        let r = cat_nested(s, keys);
        assert(r == prefix + block);
        assert forall|i: int| 0 <= i < r.len() implies exists|w: int|
            0 <= w < keys.len() && (#[trigger] r[i]).monitor == keys[w] by {
            if i < prefix.len() {
                assert(r[i] == prefix[i]);
                let w = choose|w: int| 0 <= w < kd.len() && prefix[i].monitor == kd[w];
                assert(r[i].monitor == keys[w]);
            } else {
                assert(r[i] == block[i - prefix.len()]);
                lemma_block_monitor(s, keys.last(), i - prefix.len());
                assert(r[i].monitor == keys[keys.len() - 1]);
            }
        }
    }
}

/// Filtering the fully grouped output by one of its monitor keys returns
/// exactly that monitor's block.
proof fn lemma_cat_nested_filter(s: Seq<Client>, keys: Seq<i64>, w: int)
    requires
        keys_sorted(keys),
        0 <= w < keys.len(),
    ensures
        filter_key(cat_nested(s, keys), false, keys[w]) == sorted_by_key(
            filter_key(s, false, keys[w]),
            true,
        ),
    decreases keys.len(),
{
    let kd = keys.drop_last();
    assert(forall|j: int| 0 <= j < kd.len() ==> #[trigger] kd[j] == keys[j]);
    let prefix = cat_nested(s, kd);
    let block = sorted_by_key(filter_key(s, false, keys.last()), true);
    let r = cat_nested(s, keys);
    assert(r == prefix + block);
    lemma_filter_key_concat(prefix, block, false, keys[w]);
    assert forall|i: int| 0 <= i < block.len() implies key_of(#[trigger] block[i], false)
        == keys.last() by {
        lemma_block_monitor(s, keys.last(), i);
    }
    if w == keys.len() - 1 {
        lemma_filter_key_uniform(block, false, keys[w]);
        lemma_cat_nested_mono(s, kd);
        assert forall|i: int| 0 <= i < prefix.len() implies key_of(#[trigger] prefix[i], false)
            != keys[w] by {
            assert(prefix[i].monitor <= kd.last());
            assert(kd.last() == keys[keys.len() - 2]);
        }
        lemma_filter_key_vacuous(prefix, false, keys[w]);
        assert(filter_key(r, false, keys[w]) =~= block);
    } else {
        lemma_cat_nested_filter(s, kd, w);
        assert forall|i: int| 0 <= i < block.len() implies key_of(#[trigger] block[i], false)
            != keys[w] by {
            assert(key_of(block[i], false) == keys.last());
        }
        lemma_filter_key_vacuous(block, false, keys[w]);
        assert(filter_key(r, false, keys[w]) =~= sorted_by_key(
            filter_key(s, false, keys[w]),
            true,
        ));
    }
}

/// A non-empty monitor block shows its key somewhere in the grouped output.
proof fn lemma_cat_nested_block_elem(s: Seq<Client>, keys: Seq<i64>, w: int)
    requires
        0 <= w < keys.len(),
        sorted_by_key(filter_key(s, false, keys[w]), true).len() > 0,
    ensures
        exists|i: int|
            0 <= i < cat_nested(s, keys).len() && cat_nested(s, keys)[i].monitor == keys[w],
    decreases keys.len(),
{
    let kd = keys.drop_last();
    assert(forall|j: int| 0 <= j < kd.len() ==> #[trigger] kd[j] == keys[j]);
    let prefix = cat_nested(s, kd);
    let block = sorted_by_key(filter_key(s, false, keys.last()), true);
    let r = cat_nested(s, keys);
    assert(r == prefix + block);
    if w == keys.len() - 1 {
        lemma_block_monitor(s, keys.last(), 0);
        assert(r[prefix.len() as int] == block[0]);
        assert(r[prefix.len() as int].monitor == keys[w]);
    } else {
        lemma_cat_nested_block_elem(s, kd, w);
        let i = choose|i: int| 0 <= i < prefix.len() && prefix[i].monitor == kd[w];
        assert(r[i] == prefix[i]);
        assert(r[i].monitor == keys[w]);
    }
}

/// The full grouping pass over its own output finds the same monitor keys.
proof fn lemma_cat_nested_group_keys(s: Seq<Client>)
    ensures
        group_keys(cat_nested(s, group_keys(s, false)), false) == group_keys(s, false),
{
    let gk = group_keys(s, false);
    let out = cat_nested(s, gk);
    let ok = group_keys(out, false);
    lemma_group_keys_sorted(s, false);
    lemma_group_keys_sorted(out, false);
    lemma_group_keys_complete(out, false);
    lemma_group_keys_sound(out, false);
    lemma_group_keys_sound(s, false);
    lemma_cat_nested_elem_key_in(s, gk);
    assert forall|k: i64| ok.contains(k) <==> gk.contains(k) by {
        if ok.contains(k) {
            let u = choose|u: int| 0 <= u < ok.len() && ok[u] == k;
            let i = choose|i: int| 0 <= i < out.len() && key_of(out[i], false) == ok[u];
            let w = choose|w: int| 0 <= w < gk.len() && out[i].monitor == gk[w];
            assert(gk[w] == k);
            assert(gk.contains(k));
        }
        if gk.contains(k) {
            let u = choose|u: int| 0 <= u < gk.len() && gk[u] == k;
            let i = choose|i: int| 0 <= i < s.len() && key_of(s[i], false) == gk[u];
            lemma_filter_key_has(s, false, i);
            let t = filter_key(s, false, k);
            let v = choose|v: int| 0 <= v < t.len() && t[v] == s[i];
            lemma_group_keys_complete(t, true);
            let wk = group_keys(t, true);
            assert(wk.contains(key_of(t[v], true)));
            let u2 = choose|u2: int| 0 <= u2 < wk.len() && wk[u2] == key_of(t[v], true);
            lemma_filter_key_has(t, true, v);
            lemma_sort_bucket_multiset(filter_key(t, true, wk[u2]));
            lemma_cat_rows_block_elem(t, true, wk, u2);
            assert(sorted_by_key(t, true).len() > 0);
            lemma_cat_nested_block_elem(s, gk, u);
            let j = choose|j: int| 0 <= j < out.len() && out[j].monitor == gk[u];
            assert(ok.contains(key_of(out[j], false)));
        }
    }
    lemma_keys_unique_eq(ok, gk);
}

/// Re-running the full grouping over data whose per-monitor filters are
/// already grouped blocks reproduces the blocks.
proof fn lemma_rewrap_nested(o: Seq<Client>, s: Seq<Client>, keys: Seq<i64>)
    requires
        forall|w: int|
            0 <= w < keys.len() ==> filter_key(o, false, #[trigger] keys[w]) == sorted_by_key(
                filter_key(s, false, keys[w]),
                true,
            ),
    ensures
        cat_nested(o, keys) == cat_nested(s, keys),
    decreases keys.len(),
{
    if keys.len() > 0 {
        let kd = keys.drop_last();
        assert(forall|j: int| 0 <= j < kd.len() ==> #[trigger] kd[j] == keys[j]);
        lemma_rewrap_nested(o, s, kd);
        lemma_sorted_by_key_idem(filter_key(s, false, keys.last()), true);
        assert(cat_nested(o, keys) =~= cat_nested(s, keys));
    }
}

/// Idempotence: clients that already stand in the exact reading order the
/// sort produces are left in that order by sorting them again.
pub proof fn lemma_sort_idempotent(s: Seq<Client>, ignore_workspaces: bool, ignore_monitors: bool)
    requires
        !(ignore_workspaces && ignore_monitors),
    ensures
        sort_clients_spec(
            sort_clients_spec(s, ignore_workspaces, ignore_monitors),
            ignore_workspaces,
            ignore_monitors,
        ) == sort_clients_spec(s, ignore_workspaces, ignore_monitors),
{
    if ignore_workspaces {
        lemma_sorted_by_key_idem(s, false);
    } else if ignore_monitors {
        lemma_sorted_by_key_idem(s, true);
    } else {
        let gk = group_keys(s, false);
        let out = cat_nested(s, gk);
        lemma_cat_nested_group_keys(s);
        lemma_group_keys_sorted(s, false);
        assert forall|w: int| 0 <= w < gk.len() implies filter_key(out, false, #[trigger] gk[w])
            == sorted_by_key(filter_key(s, false, gk[w]), true) by {
            lemma_cat_nested_filter(s, gk, w);
        }
        lemma_rewrap_nested(out, s, gk);
    }
}

/// One full row extracted from mid-row state: the row's clients in output
/// order, the queue left over, and the band bottom the row ended with.
pub open spec fn row_split(q: Seq<Client>, bottom: int) -> (Seq<Client>, Seq<Client>, int)
    decreases q.len(),
        via row_split_decreases
{
    match first_inside(q, bottom) {
        None => (Seq::empty(), q, bottom),
        Some(i) => {
            let c = q[i];
            match first_left(q, c.x as int, bot(c)) {
                Some(j) => {
                    let r = row_split(q.remove(j), bot(q[j]));
                    (seq![q[j]] + r.0, r.1, r.2)
                },
                None => {
                    let r = row_split(q.remove(i), bottom);
                    (seq![c] + r.0, r.1, r.2)
                },
            }
        },
    }
}

#[via_fn]
proof fn row_split_decreases(q: Seq<Client>, bottom: int) {
    lemma_first_inside_spec(q, bottom);
    match first_inside(q, bottom) {
        None => {},
        Some(i) => {
            let c = q[i];
            lemma_first_left_spec(q, c.x as int, bot(c));
        },
    }
}

/// A row never leaves more behind than it was given.
proof fn lemma_row_split_rem_len(q: Seq<Client>, bottom: int)
    ensures
        row_split(q, bottom).1.len() <= q.len(),
    decreases q.len(),
{
    lemma_first_inside_spec(q, bottom);
    match first_inside(q, bottom) {
        None => {},
        Some(i) => {
            let c = q[i];
            lemma_first_left_spec(q, c.x as int, bot(c));
            match first_left(q, c.x as int, bot(c)) {
                Some(j) => {
                    lemma_row_split_rem_len(q.remove(j), bot(q[j]));
                },
                None => {
                    lemma_row_split_rem_len(q.remove(i), bottom);
                },
            }
        },
    }
}

/// The visual rows of the extraction, with the band bottom each row ended
/// with: row `k` of the output holds `rows_bands(q).0[k]`, and its band is
/// `rows_bands(q).1[k]`.
pub open spec fn rows_bands(q: Seq<Client>) -> (Seq<Seq<Client>>, Seq<int>)
    decreases q.len(),
        via rows_bands_decreases
{
    if q.len() == 0 {
        (Seq::empty(), Seq::empty())
    } else {
        let r = row_split(q.drop_first(), bot(q[0]));
        let rest = rows_bands(r.1);
        (seq![seq![q[0]] + r.0] + rest.0, seq![r.2] + rest.1)
    }
}

#[via_fn]
proof fn rows_bands_decreases(q: Seq<Client>) {
    if q.len() > 0 {
        lemma_row_split_rem_len(q.drop_first(), bot(q[0]));
    }
}

/// What one row extraction step leaves: the row sits inside the final band,
/// everything left over starts below it, and the band only ever grew.
proof fn lemma_row_split_props(q: Seq<Client>, b: int, floor: int)
    requires
        xy_sorted(q),
        forall|i: int| 0 <= i < q.len() ==> (#[trigger] q[i]).h > 0,
        forall|i: int| 0 <= i < q.len() ==> (#[trigger] q[i]).y >= floor,
    ensures
        row_rest(q, b) == row_split(q, b).0 + next_rows(row_split(q, b).1),
        b <= row_split(q, b).2,
        forall|i: int|
            0 <= i < row_split(q, b).0.len() ==> (#[trigger] row_split(q, b).0[i]).y
                < row_split(q, b).2,
        forall|i: int|
            0 <= i < row_split(q, b).0.len() ==> (#[trigger] row_split(q, b).0[i]).y >= floor,
        forall|i: int|
            0 <= i < row_split(q, b).1.len() ==> (#[trigger] row_split(q, b).1[i]).y
                >= row_split(q, b).2,
        forall|i: int|
            0 <= i < row_split(q, b).1.len() ==> (#[trigger] row_split(q, b).1[i]).y >= floor,
        forall|i: int| 0 <= i < row_split(q, b).1.len() ==> (#[trigger] row_split(q, b).1[i]).h > 0,
        xy_sorted(row_split(q, b).1),
    decreases q.len(),
{
    lemma_first_inside_spec(q, b);
    let r = row_split(q, b);
    match first_inside(q, b) {
        None => {
            assert(row_rest(q, b) == next_rows(q));
            assert(Seq::<Client>::empty() + next_rows(q) =~= next_rows(q));
        },
        Some(i) => {
            let c = q[i];
            lemma_first_left_spec(q, c.x as int, bot(c));
            let sel: int = match first_left(q, c.x as int, bot(c)) {
                Some(j) => j,
                None => i,
            };
            let b2: int = match first_left(q, c.x as int, bot(c)) {
                Some(j) => bot(q[j]),
                None => b,
            };
            match first_left(q, c.x as int, bot(c)) {
                Some(j) => {
                    assert(j != i);
                    if j > i {
                        assert(!xy_lt(q[j], q[i]));
                        assert(false);
                    }
                    assert(q[j].y >= b);
                    assert(b2 > q[j].y);
                },
                None => {
                    assert(q[sel].y < b);
                },
            }
            q.remove_ensures(sel);
            lemma_remove_xy_sorted(q, sel);
            lemma_row_split_props(q.remove(sel), b2, floor);
            let rr = row_split(q.remove(sel), b2);
            assert(r.0 == seq![q[sel]] + rr.0);
            assert(r.1 == rr.1 && r.2 == rr.2);
            assert(row_rest(q, b) == seq![q[sel]] + row_rest(q.remove(sel), b2));
            assert(seq![q[sel]] + (rr.0 + next_rows(rr.1)) =~= (seq![q[sel]] + rr.0)
                + next_rows(rr.1));
            assert(q[sel].y < b2);
            assert(b2 <= rr.2);
            assert forall|u: int| 0 <= u < r.0.len() implies (#[trigger] r.0[u]).y < r.2 by {
                if u > 0 {
                    assert(r.0[u] == rr.0[u - 1]);
                }
            }
            assert forall|u: int| 0 <= u < r.0.len() implies (#[trigger] r.0[u]).y >= floor by {
                if u > 0 {
                    assert(r.0[u] == rr.0[u - 1]);
                }
            }
        },
    }
}

/// The extraction's output cut into rows with their bands: the rows cover
/// the output in order, every row's clients start above its own band, the
/// bands never decrease, and every client of a later row starts at or below
/// every earlier band.  This is the row-monotonicity of the reading order:
/// row membership never moves back up across the output.
proof fn lemma_rows_bands(q: Seq<Client>, floor: int)
    requires
        xy_sorted(q),
        forall|i: int| 0 <= i < q.len() ==> (#[trigger] q[i]).h > 0,
        forall|i: int| 0 <= i < q.len() ==> (#[trigger] q[i]).y >= floor,
    ensures
        rows_bands(q).0.len() == rows_bands(q).1.len(),
        next_rows(q) == rows_bands(q).0.flatten(),
        forall|k: int|
            0 <= k < rows_bands(q).1.len() ==> floor < #[trigger] rows_bands(q).1[k],
        forall|k: int, e: int|
            0 <= k < rows_bands(q).0.len() && 0 <= e < rows_bands(q).0[k].len()
                ==> (#[trigger] rows_bands(q).0[k][e]).y >= floor,
        forall|k: int, e: int|
            0 <= k < rows_bands(q).0.len() && 0 <= e < rows_bands(q).0[k].len()
                ==> (#[trigger] rows_bands(q).0[k][e]).y < rows_bands(q).1[k],
        forall|k1: int, k2: int|
            0 <= k1 <= k2 < rows_bands(q).1.len() ==> #[trigger] rows_bands(q).1[k1]
                <= #[trigger] rows_bands(q).1[k2],
        forall|k1: int, k2: int, e: int|
            0 <= k1 < k2 < rows_bands(q).0.len() && 0 <= e < rows_bands(q).0[k2].len()
                ==> (#[trigger] rows_bands(q).0[k2][e]).y >= #[trigger] rows_bands(q).1[k1],
    decreases q.len(),
{
    let rb = rows_bands(q);
    if q.len() == 0 {
        assert(next_rows(q) =~= Seq::<Client>::empty());
        assert(rb.0.flatten() =~= Seq::<Client>::empty());
    } else {
        let d = q.drop_first();
        assert(q.remove(0) =~= d);
        lemma_remove_xy_sorted(q, 0);
        assert(forall|u: int| 0 <= u < d.len() ==> #[trigger] d[u] == q[u + 1]);
        let r = row_split(d, bot(q[0]));
        lemma_row_split_props(d, bot(q[0]), floor);
        lemma_row_split_rem_len(d, bot(q[0]));
        lemma_rows_bands(r.1, r.2);
        let rest = rows_bands(r.1);
        let row0 = seq![q[0]] + r.0;
        assert(rb.0 == seq![row0] + rest.0);
        assert(rb.1 == seq![r.2] + rest.1);
        assert(q[0].y < bot(q[0]));
        assert(bot(q[0]) <= r.2);
        assert(next_rows(q) == seq![q[0]] + row_rest(d, bot(q[0])));
        assert(rb.0.len() > 0);
        assert(rb.0.first() == row0);
        assert(rb.0.drop_first() =~= rest.0);
        assert(rb.0.flatten() == rb.0.first().add(rb.0.drop_first().flatten()));
        assert(rb.0.flatten() == row0 + rest.0.flatten());
        assert(seq![q[0]] + (r.0 + next_rows(r.1)) =~= row0 + next_rows(r.1));
        assert(next_rows(q) == row0 + rest.0.flatten());
        assert forall|k: int, e: int|
            0 <= k < rb.0.len() && 0 <= e < rb.0[k].len() implies (#[trigger] rb.0[k][e]).y
            < rb.1[k] by {
            if k == 0 {
                if e > 0 {
                    assert(rb.0[0][e] == r.0[e - 1]);
                }
            } else {
                assert(rb.0[k] == rest.0[k - 1] && rb.1[k] == rest.1[k - 1]);
            }
        }
        assert forall|k: int, e: int|
            0 <= k < rb.0.len() && 0 <= e < rb.0[k].len() implies (#[trigger] rb.0[k][e]).y
            >= floor by {
            if k == 0 {
                if e > 0 {
                    assert(rb.0[0][e] == r.0[e - 1]);
                }
            } else {
                assert(rb.0[k] == rest.0[k - 1]);
            }
        }
        assert forall|k: int| 0 <= k < rb.1.len() implies floor < #[trigger] rb.1[k] by {
            if k > 0 {
                assert(rb.1[k] == rest.1[k - 1]);
            }
        }
        assert forall|k1: int, k2: int| 0 <= k1 <= k2 < rb.1.len() implies #[trigger] rb.1[k1]
            <= #[trigger] rb.1[k2] by {
            if k1 == 0 && k2 > 0 {
                assert(rb.1[k2] == rest.1[k2 - 1]);
                assert(r.2 <= rest.1[k2 - 1]);
            } else if k1 > 0 {
                assert(rb.1[k1] == rest.1[k1 - 1] && rb.1[k2] == rest.1[k2 - 1]);
            }
        }
        assert forall|k1: int, k2: int, e: int|
            0 <= k1 < k2 < rb.0.len() && 0 <= e < rb.0[k2].len()
            implies (#[trigger] rb.0[k2][e]).y >= #[trigger] rb.1[k1] by {
            assert(rb.0[k2] == rest.0[k2 - 1]);
            if k1 == 0 {
                assert(rest.0[k2 - 1][e].y >= r.2);
            } else {
                assert(rb.1[k1] == rest.1[k1 - 1]);
            }
        }
    }
}

/// Row monotonicity: a bucket's output decomposes into its visual rows in
/// emission order.  Each row's clients start strictly above the band bottom
/// the row ended with, the band bottoms never decrease from row to row, and
/// every client of a later row starts at or below every earlier row's band:
/// row membership never moves back up along the output.
pub proof fn lemma_row_monotonicity(g: Seq<Client>)
    requires
        forall|i: int| 0 <= i < g.len() ==> valid_client(#[trigger] g[i]),
    ensures
        rows_bands(sort_xy(g)).0.len() == rows_bands(sort_xy(g)).1.len(),
        sort_bucket_spec(g) == rows_bands(sort_xy(g)).0.flatten(),
        forall|k: int, e: int|
            0 <= k < rows_bands(sort_xy(g)).0.len() && 0 <= e < rows_bands(sort_xy(g)).0[k].len()
                ==> (#[trigger] rows_bands(sort_xy(g)).0[k][e]).y < rows_bands(sort_xy(g)).1[k],
        forall|k1: int, k2: int|
            0 <= k1 <= k2 < rows_bands(sort_xy(g)).1.len() ==> #[trigger] rows_bands(
                sort_xy(g),
            ).1[k1] <= #[trigger] rows_bands(sort_xy(g)).1[k2],
        forall|k1: int, k2: int, e: int|
            0 <= k1 < k2 < rows_bands(sort_xy(g)).0.len() && 0 <= e < rows_bands(
                sort_xy(g),
            ).0[k2].len() ==> (#[trigger] rows_bands(sort_xy(g)).0[k2][e]).y >= #[trigger] rows_bands(
                sort_xy(g),
            ).1[k1],
{
    broadcast use vstd::seq_lib::group_to_multiset_ensures;

    lemma_sort_xy_sorted(g);
    crate::rows::lemma_sort_xy_multiset(g);
    let q = sort_xy(g);
    assert forall|i: int| 0 <= i < q.len() implies (#[trigger] q[i]).h > 0 by {
        assert(q.contains(q[i]));
        assert(q.to_multiset().count(q[i]) > 0);
        assert(g.to_multiset().count(q[i]) > 0);
        assert(g.contains(q[i]));
        let w = choose|w: int| 0 <= w < g.len() && g[w] == q[i];
        assert(valid_client(g[w]));
    }
    let floor = (i32::MIN as int) - 1;
    lemma_rows_bands(q, floor);
}

} // verus!
