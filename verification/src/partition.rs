//! The partitioner: groups clients into buckets by monitor or workspace key,
//! buckets ordered by ascending key, clients inside a bucket in input order.

use vstd::prelude::*;
use vstd::multiset::Multiset;
use crate::client::Client;

verus! {

/// The grouping key one pass reads: the workspace key or the monitor key.
pub open spec fn key_of(c: Client, by_workspace: bool) -> i64 {
    if by_workspace {
        c.workspace
    } else {
        c.monitor
    }
}

/// Inserts `k` into an ascending key list, collapsing duplicates.
pub open spec fn insert_key(k: i64, keys: Seq<i64>) -> Seq<i64>
    decreases keys.len(),
{
    if keys.len() == 0 {
        seq![k]
    } else if keys[0] < k {
        seq![keys[0]] + insert_key(k, keys.drop_first())
    } else if keys[0] == k {
        keys
    } else {
        seq![k] + keys
    }
}

/// The distinct grouping keys occurring in `s`, in ascending order.
pub open spec fn group_keys(s: Seq<Client>, by_workspace: bool) -> Seq<i64>
    decreases s.len(),
{
    if s.len() == 0 {
        Seq::empty()
    } else {
        insert_key(key_of(s.last(), by_workspace), group_keys(s.drop_last(), by_workspace))
    }
}

/// The clients of `s` whose grouping key is `k`, in input order.
pub open spec fn filter_key(s: Seq<Client>, by_workspace: bool, k: i64) -> Seq<Client>
    decreases s.len(),
{
    if s.len() == 0 {
        Seq::empty()
    } else if key_of(s.last(), by_workspace) == k {
        filter_key(s.drop_last(), by_workspace, k).push(s.last())
    } else {
        filter_key(s.drop_last(), by_workspace, k)
    }
}

/// A strictly ascending key list.
pub open spec fn keys_sorted(keys: Seq<i64>) -> bool {
    forall|a: int, b: int| 0 <= a < b < keys.len() ==> keys[a] < keys[b]
}

/// All clients taken by a filter carry the filter's key.
pub proof fn lemma_filter_key_all(s: Seq<Client>, by_workspace: bool, k: i64)
    ensures
        forall|i: int|
            0 <= i < filter_key(s, by_workspace, k).len() ==> key_of(
                #[trigger] filter_key(s, by_workspace, k)[i],
                by_workspace,
            ) == k,
    decreases s.len(),
{
    if s.len() > 0 {
        lemma_filter_key_all(s.drop_last(), by_workspace, k);
        let f = filter_key(s.drop_last(), by_workspace, k);
        let r = filter_key(s, by_workspace, k);
        assert forall|i: int| 0 <= i < r.len() implies key_of(#[trigger] r[i], by_workspace)
            == k by {
            if key_of(s.last(), by_workspace) == k {
                if i < f.len() {
                    assert(r[i] == f[i]);
                } else {
                    assert(r[i] == s.last());
                }
            } else {
                assert(r[i] == f[i]);
            }
        }
    }
}

/// `insert_key`, located: it either finds `k` or places it at the first
/// position whose key is larger.
proof fn lemma_insert_key_at(k: i64, keys: Seq<i64>, p: int)
    requires
        0 <= p <= keys.len(),
        forall|j: int| 0 <= j < p ==> #[trigger] keys[j] < k,
        p < keys.len() ==> keys[p] >= k,
    ensures
        p < keys.len() && keys[p] == k ==> insert_key(k, keys) == keys,
        (p == keys.len() || keys[p] > k) ==> insert_key(k, keys) == keys.insert(p, k),
    decreases p,
{
    if keys.len() == 0 {
        assert(insert_key(k, keys) =~= keys.insert(0, k));
    } else if p == 0 {
        if keys[0] > k {
            assert(insert_key(k, keys) =~= keys.insert(0, k));
        }
    } else {
        let d = keys.drop_first();
        assert(forall|j: int| 0 <= j < p - 1 ==> #[trigger] d[j] == keys[j + 1]);
        lemma_insert_key_at(k, d, p - 1);
        if p == keys.len() || keys[p] > k {
            assert(p - 1 < d.len() ==> d[p - 1] == keys[p]);
            assert(insert_key(k, d) == d.insert(p - 1, k));
            assert(seq![keys[0]] + d.insert(p - 1, k) =~= keys.insert(p, k));
        } else {
            assert(d[p - 1] == keys[p]);
            assert(insert_key(k, d) == d);
            assert(seq![keys[0]] + d =~= keys);
        }
    }
}

/// Every key of the old list, and `k` itself, occurs in the inserted list.
pub proof fn lemma_insert_key_keeps(k: i64, keys: Seq<i64>)
    ensures
        exists|i: int| 0 <= i < insert_key(k, keys).len() && insert_key(k, keys)[i] == k,
        forall|j: int|
            0 <= j < keys.len() ==> exists|i: int|
                0 <= i < insert_key(k, keys).len() && insert_key(k, keys)[i] == #[trigger] keys[j],
    decreases keys.len(),
{
    let r = insert_key(k, keys);
    if keys.len() == 0 {
        assert(r[0] == k);
    } else if keys[0] < k {
        let d = keys.drop_first();
        lemma_insert_key_keeps(k, d);
        let ik = insert_key(k, d);
        let i0 = choose|i: int| 0 <= i < ik.len() && ik[i] == k;
        assert(r[i0 + 1] == k);
        assert forall|j: int| 0 <= j < keys.len() implies exists|i: int|
            0 <= i < r.len() && r[i] == #[trigger] keys[j] by {
            if j == 0 {
                assert(r[0] == keys[0]);
            } else {
                assert(d[j - 1] == keys[j]);
                let w = choose|i: int| 0 <= i < ik.len() && ik[i] == d[j - 1];
                assert(r[w + 1] == keys[j]);
            }
        }
    } else if keys[0] == k {
        assert(r[0] == k);
        assert(forall|j: int| 0 <= j < keys.len() ==> r[j] == #[trigger] keys[j]);
    } else {
        assert(r[0] == k);
        assert(forall|j: int| 0 <= j < keys.len() ==> r[j + 1] == #[trigger] keys[j]);
    }
}

/// A key that occurs nowhere in the key list selects nothing.
proof fn lemma_filter_key_absent(s: Seq<Client>, by_workspace: bool, k: i64)
    requires
        forall|i: int|
            0 <= i < group_keys(s, by_workspace).len() ==> #[trigger] group_keys(s, by_workspace)[i]
                != k,
    ensures
        filter_key(s, by_workspace, k) == Seq::<Client>::empty(),
    decreases s.len(),
{
    if s.len() > 0 {
        let k0 = key_of(s.last(), by_workspace);
        let kk = group_keys(s.drop_last(), by_workspace);
        lemma_insert_key_keeps(k0, kk);
        let i0 = choose|i: int|
            0 <= i < insert_key(k0, kk).len() && insert_key(k0, kk)[i] == k0;
        assert(group_keys(s, by_workspace)[i0] != k);
        assert(k0 != k);
        assert forall|i: int| 0 <= i < kk.len() implies #[trigger] kk[i] != k by {
            let w = choose|j: int|
                0 <= j < insert_key(k0, kk).len() && insert_key(k0, kk)[j] == kk[i];
            assert(group_keys(s, by_workspace)[w] != k);
        }
        lemma_filter_key_absent(s.drop_last(), by_workspace, k);
    }
}

/// The clients spread over a bucket list, with multiplicities.
pub open spec fn buckets_multiset(bs: Seq<Vec<Client>>) -> Multiset<Client>
    decreases bs.len(),
{
    if bs.len() == 0 {
        Multiset::empty()
    } else {
        buckets_multiset(bs.drop_last()).add(bs.last()@.to_multiset())
    }
}

/// Replacing one bucket by the same bucket plus `c` adds one `c` overall.
proof fn lemma_buckets_multiset_update(bs: Seq<Vec<Client>>, p: int, v: Vec<Client>, c: Client)
    requires
        0 <= p < bs.len(),
        v@.to_multiset() == bs[p]@.to_multiset().insert(c),
    ensures
        buckets_multiset(bs.update(p, v)) == buckets_multiset(bs).insert(c),
    decreases bs.len(),
{
    broadcast use vstd::multiset::group_multiset_axioms;

    let u = bs.update(p, v);
    if p == bs.len() - 1 {
        assert(u.drop_last() =~= bs.drop_last());
        assert(u.last() == v);
        assert(buckets_multiset(u) =~= buckets_multiset(bs).insert(c));
    } else {
        assert(u.drop_last() =~= bs.drop_last().update(p, v));
        assert(u.last() == bs.last());
        lemma_buckets_multiset_update(bs.drop_last(), p, v, c);
        assert(buckets_multiset(u) =~= buckets_multiset(bs).insert(c));
    }
}

/// Inserting a bucket adds exactly its clients.
proof fn lemma_buckets_multiset_insert(bs: Seq<Vec<Client>>, p: int, v: Vec<Client>)
    requires
        0 <= p <= bs.len(),
    ensures
        buckets_multiset(bs.insert(p, v)) == buckets_multiset(bs).add(v@.to_multiset()),
    decreases bs.len(),
{
    broadcast use vstd::multiset::group_multiset_axioms;

    let u = bs.insert(p, v);
    if p == bs.len() {
        assert(u.drop_last() =~= bs);
        assert(u.last() == v);
    } else {
        assert(u.drop_last() =~= bs.drop_last().insert(p, v));
        assert(u.last() == bs.last());
        lemma_buckets_multiset_insert(bs.drop_last(), p, v);
        assert(buckets_multiset(u) =~= buckets_multiset(bs).add(v@.to_multiset()));
    }
}

/// Groups the clients into buckets by their grouping key: one bucket per
/// distinct key, buckets in ascending key order, clients in input order.
pub fn group_by(clients: &Vec<Client>, by_workspace: bool) -> (r: (Vec<i64>, Vec<Vec<Client>>))
    ensures
        r.0@ == group_keys(clients@, by_workspace),
        keys_sorted(r.0@),
        r.1@.len() == r.0@.len(),
        forall|j: int|
            0 <= j < r.0@.len() ==> (#[trigger] r.1@[j])@ == filter_key(
                clients@,
                by_workspace,
                r.0@[j],
            ),
        buckets_multiset(r.1@) == clients@.to_multiset(),
{
    broadcast use vstd::seq_lib::group_to_multiset_ensures;

    let mut keys: Vec<i64> = Vec::new();
    let mut buckets: Vec<Vec<Client>> = Vec::new();
    let mut idx: usize = 0;
    proof {
        assert(clients@.take(0) =~= Seq::empty());
        assert(Seq::<Client>::empty().to_multiset() =~= Multiset::empty());
    }
    while idx < clients.len()
        invariant
            idx <= clients.len(),
            keys@ == group_keys(clients@.take(idx as int), by_workspace),
            keys_sorted(keys@),
            buckets@.len() == keys@.len(),
            forall|j: int|
                0 <= j < keys@.len() ==> (#[trigger] buckets@[j])@ == filter_key(
                    clients@.take(idx as int),
                    by_workspace,
                    keys@[j],
                ),
            buckets_multiset(buckets@) == clients@.take(idx as int).to_multiset(),
        decreases clients.len() - idx,
    {
        let c = clients[idx];
        let k = if by_workspace {
            c.workspace
        } else {
            c.monitor
        };
        let ghost prefix = clients@.take(idx as int);
        let ghost prefix1 = clients@.take(idx as int + 1);
        proof {
            assert(prefix1.drop_last() =~= prefix);
            assert(prefix1.last() == c);
            assert(prefix1 =~= prefix.push(c));
            assert(group_keys(prefix1, by_workspace) == insert_key(
                k,
                group_keys(prefix, by_workspace),
            ));
        }
        let mut p: usize = 0;
        while p < keys.len() && keys[p] < k
            invariant
                p <= keys.len(),
                forall|j: int| 0 <= j < p ==> #[trigger] keys@[j] < k,
                keys@ == group_keys(clients@.take(idx as int), by_workspace),
                keys_sorted(keys@),
            decreases keys.len() - p,
        {
            p += 1;
        }
        proof {
            lemma_insert_key_at(k, keys@, p as int);
        }
        if p < keys.len() && keys[p] == k {
            let ghost bs0 = buckets@;
            let mut b = buckets.remove(p);
            let ghost b0 = b@;
            b.push(c);
            proof {
                broadcast use vstd::seq_lib::group_to_multiset_ensures;

                assert(b@ == b0.push(c));
                assert(b0.push(c).to_multiset() =~= b0.to_multiset().insert(c));
                lemma_buckets_multiset_update(bs0, p as int, b, c);
            }
            buckets.insert(p, b);
            proof {
                assert(buckets@ =~= bs0.update(p as int, b));
                assert(keys@ == group_keys(prefix1, by_workspace));
                assert forall|j: int| 0 <= j < keys@.len() implies (#[trigger] buckets@[j])@
                    == filter_key(prefix1, by_workspace, keys@[j]) by {
                    if j == p {
                        assert(buckets@[j]@ == filter_key(prefix, by_workspace, keys@[j]).push(c));
                    } else {
                        assert(keys@[j] != k);
                        assert(buckets@[j] == bs0[j]);
                    }
                }
                assert(prefix1.to_multiset() == prefix.to_multiset().insert(c));
            }
        } else {
            let mut b: Vec<Client> = Vec::new();
            b.push(c);
            proof {
                broadcast use vstd::seq_lib::group_to_multiset_ensures;

                assert(b@ =~= Seq::empty().push(c));
                assert(Seq::<Client>::empty().to_multiset() =~= Multiset::empty());
                assert(Seq::<Client>::empty().push(c).to_multiset() =~= Multiset::empty().insert(
                    c,
                ));
                assert(b@.to_multiset() == Multiset::empty().insert(c));
                assert(forall|i: int| 0 <= i < keys@.len() ==> #[trigger] keys@[i] != k);
                lemma_filter_key_absent(prefix, by_workspace, k);
                lemma_buckets_multiset_insert(buckets@, p as int, b);
            }
            let ghost ks0 = keys@;
            let ghost bs0 = buckets@;
            keys.insert(p, k);
            buckets.insert(p, b);
            proof {
                ks0.insert_ensures(p as int, k);
                bs0.insert_ensures(p as int, b);
                assert(keys@ == group_keys(prefix1, by_workspace));
                assert(keys_sorted(keys@)) by {
                    assert forall|a: int, b2: int|
                        0 <= a < b2 < keys@.len() implies keys@[a] < keys@[b2] by {
                        assert(keys@[a] == if a < p { ks0[a] } else if a == p { k } else {
                            ks0[a - 1]
                        });
                        assert(keys@[b2] == if b2 < p { ks0[b2] } else if b2 == p { k } else {
                            ks0[b2 - 1]
                        });
                    }
                }
                assert forall|j: int| 0 <= j < keys@.len() implies (#[trigger] buckets@[j])@
                    == filter_key(prefix1, by_workspace, keys@[j]) by {
                    if j < p {
                        assert(buckets@[j] == bs0[j]);
                        assert(keys@[j] == ks0[j]);
                        assert(keys@[j] != k);
                    } else if j == p {
                        assert(buckets@[j] == b);
                        assert(filter_key(prefix1, by_workspace, k) == filter_key(
                            prefix,
                            by_workspace,
                            k,
                        ).push(c));
                    } else {
                        assert(buckets@[j] == bs0[j - 1]);
                        assert(keys@[j] == ks0[j - 1]);
                        assert(keys@[j] != k);
                    }
                }
                assert(prefix1.to_multiset() == prefix.to_multiset().insert(c));
                assert(buckets_multiset(buckets@) =~= prefix1.to_multiset()) by {
                    broadcast use vstd::multiset::group_multiset_axioms;
                }
            }
        }
        idx += 1;
    }
    proof {
        assert(clients@.take(clients@.len() as int) =~= clients@);
    }
    (keys, buckets)
}

} // verus!
