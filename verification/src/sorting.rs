//! The top-level sort: partition the snapshot by the grouping mode, then put
//! every bucket into reading order and concatenate the results.

use vstd::prelude::*;
use vstd::multiset::Multiset;
use crate::client::Client;
use crate::partition::{
    buckets_multiset, filter_key, group_by, group_keys, keys_sorted,
};
use crate::rows::{sort_bucket, sort_bucket_spec};

verus! {

/// The failure of the one unsupported grouping mode.
#[derive(Clone, Copy, PartialEq, Eq, Structural, Debug)]
pub enum SortError {
    /// Both monitors and workspaces were asked to be ignored at once; that
    /// flat mode is not implemented and is a caller error.
    ConflictingIgnoreFlags,
}

/// The sorted buckets of the given keys, in key order, concatenated.
pub open spec fn cat_rows(s: Seq<Client>, by_workspace: bool, keys: Seq<i64>) -> Seq<Client>
    decreases keys.len(),
{
    if keys.len() == 0 {
        Seq::empty()
    } else {
        cat_rows(s, by_workspace, keys.drop_last()) + sort_bucket_spec(
            filter_key(s, by_workspace, keys.last()),
        )
    }
}

/// One bucket per distinct grouping key, each in reading order, in ascending
/// key order.
pub open spec fn sorted_by_key(s: Seq<Client>, by_workspace: bool) -> Seq<Client> {
    cat_rows(s, by_workspace, group_keys(s, by_workspace))
}

/// Full grouping: per monitor key in ascending order, the monitor's clients
/// split by workspace key and each workspace bucket put in reading order.
pub open spec fn cat_nested(s: Seq<Client>, keys: Seq<i64>) -> Seq<Client>
    decreases keys.len(),
{
    if keys.len() == 0 {
        Seq::empty()
    } else {
        cat_nested(s, keys.drop_last()) + sorted_by_key(
            filter_key(s, false, keys.last()),
            true,
        )
    }
}

/// What the sort returns for each supported grouping mode.
pub open spec fn sort_clients_spec(
    s: Seq<Client>,
    ignore_workspaces: bool,
    ignore_monitors: bool,
) -> Seq<Client> {
    if ignore_workspaces {
        sorted_by_key(s, false)
    } else if ignore_monitors {
        sorted_by_key(s, true)
    } else {
        cat_nested(s, group_keys(s, false))
    }
}

/// A bucket list's clients split off its first bucket.
proof fn lemma_buckets_multiset_first(bs: Seq<Vec<Client>>)
    requires
        bs.len() > 0,
    ensures
        buckets_multiset(bs) == bs[0]@.to_multiset().add(buckets_multiset(bs.drop_first())),
    decreases bs.len(),
{
    broadcast use vstd::multiset::group_multiset_axioms;

    if bs.len() == 1 {
        assert(bs.drop_last() =~= Seq::empty());
        assert(bs.drop_first() =~= Seq::empty());
        assert(bs.last() == bs[0]);
        assert(buckets_multiset(bs) =~= bs[0]@.to_multiset().add(
            buckets_multiset(bs.drop_first()),
        ));
    } else {
        lemma_buckets_multiset_first(bs.drop_last());
        assert(bs.drop_last()[0] == bs[0]);
        assert(bs.drop_first().drop_last() =~= bs.drop_last().drop_first());
        assert(bs.drop_first().last() == bs.last());
        assert(buckets_multiset(bs) =~= bs[0]@.to_multiset().add(
            buckets_multiset(bs.drop_first()),
        ));
    }
}

/// Sorts the buckets of one flat grouping pass and appends them to `out`.
fn sort_flat(out: &mut Vec<Client>, all: Ghost<Seq<Client>>, by_workspace: bool, buckets: Vec<Vec<Client>>, keys: Ghost<Seq<i64>>)
    requires
        keys@.len() == buckets@.len(),
        forall|j: int|
            0 <= j < keys@.len() ==> (#[trigger] buckets@[j])@ == filter_key(
                all@,
                by_workspace,
                keys@[j],
            ),
    ensures
        final(out)@ == old(out)@ + cat_rows(all@, by_workspace, keys@),
        final(out)@.to_multiset() == old(out)@.to_multiset().add(buckets_multiset(buckets@)),
{
    broadcast use vstd::multiset::group_multiset_axioms;
    broadcast use vstd::seq_lib::lemma_multiset_commutative;

    let ghost out0 = out@;
    let ghost bs_all = buckets@;
    let mut buckets = buckets;
    let ghost mut k: int = 0;
    proof {
        assert(keys@.take(0) =~= Seq::<i64>::empty());
        assert(out0 + cat_rows(all@, by_workspace, keys@.take(0)) =~= out0);
        assert(buckets_multiset(Seq::<Vec<Client>>::empty()) == Multiset::<Client>::empty());
    }
    while buckets.len() > 0
        invariant
            0 <= k,
            k + buckets@.len() == keys@.len(),
            forall|j: int|
                0 <= j < buckets@.len() ==> (#[trigger] buckets@[j])@ == filter_key(
                    all@,
                    by_workspace,
                    keys@[k + j],
                ),
            out@ == out0 + cat_rows(all@, by_workspace, keys@.take(k)),
            out@.to_multiset().add(buckets_multiset(buckets@)) == out0.to_multiset().add(
                buckets_multiset(bs_all),
            ),
        decreases buckets.len(),
    {
        let ghost bs = buckets@;
        let ghost out_prev = out@;
        let b = buckets.remove(0);
        let mut sorted = sort_bucket(b);
        let ghost sorted_view = sorted@;
        out.append(&mut sorted);
        proof {
            assert(buckets@ =~= bs.drop_first());
            lemma_buckets_multiset_first(bs);
            assert(keys@.take(k + 1).drop_last() =~= keys@.take(k));
            assert(keys@.take(k + 1).last() == keys@[k]);
            assert(out@ =~= out0 + cat_rows(all@, by_workspace, keys@.take(k + 1)));
            assert(out@ == out_prev + sorted_view);
            vstd::seq_lib::lemma_multiset_commutative(out_prev, sorted_view);
            broadcast use vstd::multiset::group_multiset_axioms;
            assert(sorted_view.to_multiset() == bs[0]@.to_multiset());
            assert(out@.to_multiset().add(buckets_multiset(buckets@)) =~= out0.to_multiset().add(
                buckets_multiset(bs_all),
            ));
            k = k + 1;
        }
    }
    proof {
        assert(keys@.take(keys@.len() as int) =~= keys@);
        assert(buckets_multiset(buckets@) == Multiset::<Client>::empty());
        assert(out@.to_multiset() =~= out0.to_multiset().add(buckets_multiset(bs_all)));
    }
}

/// Sorts the given clients into reading order.
///
/// The clients are grouped by ascending monitor key and, unless workspaces
/// are ignored, by ascending workspace key within each monitor; ignoring
/// monitors instead groups by workspace key alone.  Each innermost group is
/// then ordered one visual row at a time and the groups are concatenated.
/// The result is a permutation of the input: nothing is dropped or copied.
///
/// The sort never fails on clients with non-positive width or height, but
/// their row membership is unspecified: the row laws are stated for
/// well-formed clients only.
pub fn sort_clients(
    clients: Vec<Client>,
    ignore_workspaces: bool,
    ignore_monitors: bool,
) -> (r: Vec<Client>)
    requires
        !(ignore_workspaces && ignore_monitors),
    ensures
        r@ == sort_clients_spec(clients@, ignore_workspaces, ignore_monitors),
        r@.to_multiset() == clients@.to_multiset(),
        r@.len() == clients@.len(),
{
    broadcast use vstd::seq_lib::group_to_multiset_ensures;
    broadcast use vstd::multiset::group_multiset_axioms;

    let mut out: Vec<Client> = Vec::new();
    proof {
        assert(out@ =~= Seq::<Client>::empty());
        assert(Seq::<Client>::empty().to_multiset() =~= Multiset::empty());
    }
    if ignore_workspaces || ignore_monitors {
        let by_workspace = ignore_monitors;
        let (keys, buckets) = group_by(&clients, by_workspace);
        proof {
            assert(out@ + cat_rows(clients@, by_workspace, keys@) =~= cat_rows(
                clients@,
                by_workspace,
                keys@,
            ));
        }
        sort_flat(&mut out, Ghost(clients@), by_workspace, buckets, Ghost(keys@));
    } else {
        let (mkeys, mut mbuckets) = group_by(&clients, false);
        let ghost gk = mkeys@;
        let ghost mut k: int = 0;
        proof {
            assert(gk.take(0) =~= Seq::<i64>::empty());
            assert(out@ =~= cat_nested(clients@, gk.take(0)));
            assert(buckets_multiset(Seq::<Vec<Client>>::empty()) == Multiset::<Client>::empty());
        }
        while mbuckets.len() > 0
            invariant
                0 <= k,
                k + mbuckets@.len() == gk.len(),
                forall|j: int|
                    0 <= j < mbuckets@.len() ==> (#[trigger] mbuckets@[j])@ == filter_key(
                        clients@,
                        false,
                        gk[k + j],
                    ),
                out@ == cat_nested(clients@, gk.take(k)),
                out@.to_multiset().add(buckets_multiset(mbuckets@)) == clients@.to_multiset(),
            decreases mbuckets.len(),
        {
            let ghost bs = mbuckets@;
            let t = mbuckets.remove(0);
            let (wkeys, wbuckets) = group_by(&t, true);
            proof {
                assert(mbuckets@ =~= bs.drop_first());
                lemma_buckets_multiset_first(bs);
            }
            sort_flat(&mut out, Ghost(t@), true, wbuckets, Ghost(wkeys@));
            proof {
                assert(gk.take(k + 1).drop_last() =~= gk.take(k));
                assert(gk.take(k + 1).last() == gk[k]);
                assert(sorted_by_key(t@, true) == cat_rows(t@, true, wkeys@));
                assert(out@ =~= cat_nested(clients@, gk.take(k + 1)));
                assert(out@.to_multiset().add(buckets_multiset(mbuckets@))
                    =~= clients@.to_multiset());
                k = k + 1;
            }
        }
        proof {
            assert(gk.take(gk.len() as int) =~= gk);
            assert(buckets_multiset(mbuckets@) == Multiset::<Client>::empty());
            assert(out@.to_multiset() =~= clients@.to_multiset());
        }
    }
    proof {
        assert(out@.to_multiset().len() == clients@.to_multiset().len());
    }
    out
}

/// Sorts the given clients into reading order after checking the grouping
/// flags: asking to ignore both monitors and workspaces is refused, since
/// that flat mode is not implemented.
pub fn sort_clients_checked(
    clients: Vec<Client>,
    ignore_workspaces: bool,
    ignore_monitors: bool,
) -> (r: Result<Vec<Client>, SortError>)
    ensures
        match r {
            Ok(v) => !(ignore_workspaces && ignore_monitors) && v@ == sort_clients_spec(
                clients@,
                ignore_workspaces,
                ignore_monitors,
            ) && v@.to_multiset() == clients@.to_multiset() && v@.len() == clients@.len(),
            Err(e) => ignore_workspaces && ignore_monitors && e
                == SortError::ConflictingIgnoreFlags,
        },
{
    if ignore_workspaces && ignore_monitors {
        Err(SortError::ConflictingIgnoreFlags)
    } else {
        Ok(sort_clients(clients, ignore_workspaces, ignore_monitors))
    }
}

} // verus!
