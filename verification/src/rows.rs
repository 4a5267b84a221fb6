//! The row sorter: a stable primary sort by position, followed by greedy
//! extraction of one visual row at a time.

use vstd::prelude::*;
use vstd::multiset::Multiset;
use crate::client::{bot, Client};

verus! {

/// Strict "reads earlier" order on positions: left-to-right, then
/// top-to-bottom.
pub open spec fn xy_lt(a: Client, b: Client) -> bool {
    a.x < b.x || (a.x == b.x && a.y < b.y)
}

/// Inserts `c` in front of the first element that does not read strictly
/// earlier than `c`, so clients at equal positions keep their existing order.
pub open spec fn insert_xy(c: Client, s: Seq<Client>) -> Seq<Client>
    decreases s.len(),
{
    if s.len() == 0 {
        seq![c]
    } else if xy_lt(s[0], c) {
        seq![s[0]] + insert_xy(c, s.drop_first())
    } else {
        seq![c] + s
    }
}

/// The primary ordering pass: a stable sort ascending by `x`, ties broken
/// ascending by `y`, further ties kept in input order.
pub open spec fn sort_xy(s: Seq<Client>) -> Seq<Client>
    decreases s.len(),
{
    if s.len() == 0 {
        Seq::empty()
    } else {
        insert_xy(s[0], sort_xy(s.drop_first()))
    }
}

/// Index of the first queued client whose top lies inside the open row band,
/// i.e. strictly above `bottom`.
pub open spec fn first_inside(q: Seq<Client>, bottom: int) -> Option<int>
    decreases q.len(),
{
    if q.len() == 0 {
        None
    } else if q[0].y < bottom {
        Some(0int)
    } else {
        match first_inside(q.drop_first(), bottom) {
            Some(i) => Some(i + 1),
            None => None,
        }
    }
}

/// Index of the first queued client positioned left of `cx` whose top lies
/// strictly above `cb`.
pub open spec fn first_left(q: Seq<Client>, cx: int, cb: int) -> Option<int>
    decreases q.len(),
{
    if q.len() == 0 {
        None
    } else if q[0].x < cx && q[0].y < cb {
        Some(0int)
    } else {
        match first_left(q.drop_first(), cx, cb) {
            Some(i) => Some(i + 1),
            None => None,
        }
    }
}

/// Where `first_inside` points: the first hit, with nothing inside before it.
pub proof fn lemma_first_inside_spec(q: Seq<Client>, bottom: int)
    ensures
        match first_inside(q, bottom) {
            Some(i) => 0 <= i < q.len() && q[i].y < bottom && (forall|k: int|
                0 <= k < i ==> !(q[k].y < bottom)),
            None => forall|k: int| 0 <= k < q.len() ==> !(q[k].y < bottom),
        },
    decreases q.len(),
{
    if q.len() > 0 && !(q[0].y < bottom) {
        let d = q.drop_first();
        lemma_first_inside_spec(d, bottom);
        match first_inside(q, bottom) {
            Some(i) => {
                assert(q[i] == d[i - 1]);
                assert forall|k: int| 0 <= k < i implies !(q[k].y < bottom) by {
                    if k >= 1 {
                        assert(q[k] == d[k - 1]);
                    }
                }
            },
            None => {
                assert forall|k: int| 0 <= k < q.len() implies !(q[k].y < bottom) by {
                    if k >= 1 {
                        assert(q[k] == d[k - 1]);
                    }
                }
            },
        }
    }
}

/// Where `first_left` points: the first hit, with no earlier candidate.
pub proof fn lemma_first_left_spec(q: Seq<Client>, cx: int, cb: int)
    ensures
        match first_left(q, cx, cb) {
            Some(i) => 0 <= i < q.len() && q[i].x < cx && q[i].y < cb && (forall|k: int|
                0 <= k < i ==> !(q[k].x < cx && q[k].y < cb)),
            None => forall|k: int| 0 <= k < q.len() ==> !(q[k].x < cx && q[k].y < cb),
        },
    decreases q.len(),
{
    if q.len() > 0 && !(q[0].x < cx && q[0].y < cb) {
        let d = q.drop_first();
        lemma_first_left_spec(d, cx, cb);
        match first_left(q, cx, cb) {
            Some(i) => {
                assert(q[i] == d[i - 1]);
                assert forall|k: int| 0 <= k < i implies !(q[k].x < cx && q[k].y < cb) by {
                    if k >= 1 {
                        assert(q[k] == d[k - 1]);
                    }
                }
            },
            None => {
                assert forall|k: int| 0 <= k < q.len() implies !(q[k].x < cx && q[k].y < cb) by {
                    if k >= 1 {
                        assert(q[k] == d[k - 1]);
                    }
                }
            },
        }
    }
}

/// The rest of the output while a row band reaching down to `bottom` is open:
/// take the first client inside the band; if anything further left starts
/// above that client's bottom edge, take that instead and extend the band to
/// its bottom; when nothing is inside, the row is finished and the remaining
/// queue starts fresh rows.
pub open spec fn row_rest(q: Seq<Client>, bottom: int) -> Seq<Client>
    decreases q.len(), 1int,
        via row_rest_decreases
{
    match first_inside(q, bottom) {
        None => next_rows(q),
        Some(i) => {
            let c = q[i];
            match first_left(q, c.x as int, bot(c)) {
                Some(j) => seq![q[j]] + row_rest(q.remove(j), bot(q[j])),
                None => seq![c] + row_rest(q.remove(i), bottom),
            }
        },
    }
}

/// The whole output of the row extraction loop: each remaining front element
/// anchors a new row whose band is that anchor's own vertical extent.
pub open spec fn next_rows(q: Seq<Client>) -> Seq<Client>
    decreases q.len(), 0int,
{
    if q.len() == 0 {
        Seq::empty()
    } else {
        seq![q[0]] + row_rest(q.drop_first(), bot(q[0]))
    }
}

#[via_fn]
proof fn row_rest_decreases(q: Seq<Client>, bottom: int) {
    lemma_first_inside_spec(q, bottom);
    match first_inside(q, bottom) {
        None => {},
        Some(i) => {
            let c = q[i];
            lemma_first_left_spec(q, c.x as int, bot(c));
        },
    }
}

/// What one bucket sorts to: the primary pass, then row extraction.
pub open spec fn sort_bucket_spec(g: Seq<Client>) -> Seq<Client> {
    next_rows(sort_xy(g))
}

/// A queue in primary order: no client reads strictly earlier than one
/// standing before it.
pub open spec fn xy_sorted(q: Seq<Client>) -> bool {
    forall|a: int, b: int| 0 <= a < b < q.len() ==> !xy_lt(#[trigger] q[b], #[trigger] q[a])
}

/// Insertion keeps the primary order, and the front stays whichever of the
/// old front and the new client reads earlier.
proof fn lemma_insert_xy_sorted(c: Client, s: Seq<Client>)
    requires
        xy_sorted(s),
    ensures
        xy_sorted(insert_xy(c, s)),
        insert_xy(c, s).len() == s.len() + 1,
        insert_xy(c, s)[0] == if s.len() > 0 && xy_lt(s[0], c) {
            s[0]
        } else {
            c
        },
    decreases s.len(),
{
    let r = insert_xy(c, s);
    if s.len() == 0 {
    } else if xy_lt(s[0], c) {
        let d = s.drop_first();
        assert(forall|j: int| 0 <= j < d.len() ==> #[trigger] d[j] == s[j + 1]);
        lemma_insert_xy_sorted(c, d);
        let t = insert_xy(c, d);
        assert(r == seq![s[0]] + t);
        assert(!xy_lt(t[0], s[0]));
        assert forall|a: int, b: int| 0 <= a < b < r.len() implies !xy_lt(
            #[trigger] r[b],
            #[trigger] r[a],
        ) by {
            if a == 0 {
                assert(r[b] == t[b - 1]);
                if b > 1 {
                    assert(!xy_lt(t[b - 1], t[0]));
                }
            } else {
                assert(r[a] == t[a - 1] && r[b] == t[b - 1]);
            }
        }
    } else {
        assert(r == seq![c] + s);
        assert forall|a: int, b: int| 0 <= a < b < r.len() implies !xy_lt(
            #[trigger] r[b],
            #[trigger] r[a],
        ) by {
            if a == 0 {
                assert(r[b] == s[b - 1]);
                if b > 1 {
                    assert(!xy_lt(s[b - 1], s[0]));
                }
            } else {
                assert(r[a] == s[a - 1] && r[b] == s[b - 1]);
            }
        }
    }
}

/// The primary pass leaves the queue in primary order.
pub proof fn lemma_sort_xy_sorted(s: Seq<Client>)
    ensures
        xy_sorted(sort_xy(s)),
        sort_xy(s).len() == s.len(),
    decreases s.len(),
{
    if s.len() > 0 {
        lemma_sort_xy_sorted(s.drop_first());
        lemma_insert_xy_sorted(s[0], sort_xy(s.drop_first()));
    }
}

/// Removing a client keeps the queue in primary order.
pub proof fn lemma_remove_xy_sorted(q: Seq<Client>, i: int)
    requires
        xy_sorted(q),
        0 <= i < q.len(),
    ensures
        xy_sorted(q.remove(i)),
{
    q.remove_ensures(i);
    let r = q.remove(i);
    assert forall|a: int, b: int| 0 <= a < b < r.len() implies !xy_lt(
        #[trigger] r[b],
        #[trigger] r[a],
    ) by {
        let a2: int = if a < i {
            a
        } else {
            a + 1
        };
        let b2: int = if b < i {
            b
        } else {
            b + 1
        };
        assert(r[a] == q[a2] && r[b] == q[b2]);
        assert(!xy_lt(q[b2], q[a2]));
    }
}

/// Inserting into a sequence adds exactly one occurrence.
proof fn lemma_insert_xy_multiset(c: Client, s: Seq<Client>)
    ensures
        insert_xy(c, s).to_multiset() == s.to_multiset().insert(c),
    decreases s.len(),
{
    broadcast use vstd::seq_lib::group_to_multiset_ensures;
    broadcast use vstd::seq_lib::lemma_multiset_commutative;
    broadcast use vstd::multiset::group_multiset_axioms;

    if s.len() == 0 {
        assert(insert_xy(c, s) =~= Seq::empty().push(c));
        assert(insert_xy(c, s).to_multiset() =~= s.to_multiset().insert(c));
    } else if xy_lt(s[0], c) {
        lemma_insert_xy_multiset(c, s.drop_first());
        lemma_multiset_first(s);
        assert(seq![s[0]] =~= Seq::empty().push(s[0]));
        assert(Seq::<Client>::empty().to_multiset() =~= Multiset::empty());
        assert(insert_xy(c, s) == seq![s[0]] + insert_xy(c, s.drop_first()));
        assert(insert_xy(c, s).to_multiset() =~= s.to_multiset().insert(c));
    } else {
        assert(seq![c] =~= Seq::empty().push(c));
        assert(Seq::<Client>::empty().to_multiset() =~= Multiset::empty());
        lemma_multiset_first(seq![c] + s);
        assert((seq![c] + s).drop_first() =~= s);
        assert(insert_xy(c, s).to_multiset() =~= s.to_multiset().insert(c));
    }
}

/// The multiset of a sequence splits off its first element.
proof fn lemma_multiset_first(s: Seq<Client>)
    requires
        s.len() > 0,
    ensures
        s.to_multiset() == s.drop_first().to_multiset().insert(s[0]),
{
    broadcast use vstd::seq_lib::group_to_multiset_ensures;
    broadcast use vstd::seq_lib::lemma_multiset_commutative;
    broadcast use vstd::multiset::group_multiset_axioms;

    assert(s =~= seq![s[0]] + s.drop_first());
    assert(seq![s[0]] =~= Seq::empty().push(s[0]));
    assert(Seq::<Client>::empty().to_multiset() =~= Multiset::empty());
    assert((seq![s[0]] + s.drop_first()).to_multiset() =~= s.drop_first().to_multiset().insert(
        s[0],
    ));
}

/// The primary pass reorders its input: same clients, same multiplicities.
pub proof fn lemma_sort_xy_multiset(s: Seq<Client>)
    ensures
        sort_xy(s).to_multiset() == s.to_multiset(),
    decreases s.len(),
{
    if s.len() > 0 {
        lemma_sort_xy_multiset(s.drop_first());
        lemma_insert_xy_multiset(s[0], sort_xy(s.drop_first()));
        lemma_multiset_first(s);
        assert(sort_xy(s) == insert_xy(s[0], sort_xy(s.drop_first())));
    } else {
        assert(s =~= Seq::empty());
    }
}

/// Extracting a row keeps exactly the queued clients.
proof fn lemma_row_rest_multiset(q: Seq<Client>, bottom: int)
    ensures
        row_rest(q, bottom).to_multiset() == q.to_multiset(),
    decreases q.len(), 1int,
{
    broadcast use vstd::seq_lib::group_to_multiset_ensures;
    broadcast use vstd::seq_lib::lemma_multiset_commutative;
    broadcast use vstd::multiset::group_multiset_axioms;

    lemma_first_inside_spec(q, bottom);
    match first_inside(q, bottom) {
        None => {
            lemma_next_rows_multiset(q);
        },
        Some(i) => {
            let c = q[i];
            lemma_first_left_spec(q, c.x as int, bot(c));
            match first_left(q, c.x as int, bot(c)) {
                Some(j) => {
                    lemma_row_rest_multiset(q.remove(j), bot(q[j]));
                    lemma_reattach_multiset(q, j, row_rest(q.remove(j), bot(q[j])));
                },
                None => {
                    lemma_row_rest_multiset(q.remove(i), bottom);
                    lemma_reattach_multiset(q, i, row_rest(q.remove(i), bottom));
                },
            }
        },
    }
}

/// Putting a removed element back in front restores the queue's multiset.
proof fn lemma_reattach_multiset(q: Seq<Client>, i: int, rest: Seq<Client>)
    requires
        0 <= i < q.len(),
        rest.to_multiset() == q.remove(i).to_multiset(),
    ensures
        (seq![q[i]] + rest).to_multiset() == q.to_multiset(),
{
    broadcast use vstd::seq_lib::group_to_multiset_ensures;
    broadcast use vstd::seq_lib::lemma_multiset_commutative;
    broadcast use vstd::multiset::group_multiset_axioms;

    assert(seq![q[i]] =~= Seq::empty().push(q[i]));
    assert(Seq::<Client>::empty().to_multiset() =~= Multiset::empty());
    assert(q.contains(q[i]));
    assert(q.to_multiset().count(q[i]) > 0);
    assert(q.remove(i).to_multiset() == q.to_multiset().remove(q[i]));
    assert((seq![q[i]] + rest).to_multiset() =~= q.to_multiset());
}

/// Row extraction reorders the queue: same clients, same multiplicities.
proof fn lemma_next_rows_multiset(q: Seq<Client>)
    ensures
        next_rows(q).to_multiset() == q.to_multiset(),
    decreases q.len(), 0int,
{
    broadcast use vstd::seq_lib::group_to_multiset_ensures;
    broadcast use vstd::seq_lib::lemma_multiset_commutative;
    broadcast use vstd::multiset::group_multiset_axioms;

    if q.len() > 0 {
        lemma_row_rest_multiset(q.drop_first(), bot(q[0]));
        assert(q.remove(0) =~= q.drop_first());
        lemma_reattach_multiset(q, 0, row_rest(q.drop_first(), bot(q[0])));
    }
}

/// A bucket's sorted form holds exactly the bucket's clients.
pub proof fn lemma_sort_bucket_multiset(g: Seq<Client>)
    ensures
        sort_bucket_spec(g).to_multiset() == g.to_multiset(),
        sort_bucket_spec(g).len() == g.len(),
{
    broadcast use vstd::seq_lib::group_to_multiset_ensures;

    lemma_sort_xy_multiset(g);
    lemma_next_rows_multiset(sort_xy(g));
    assert(sort_bucket_spec(g).to_multiset().len() == g.to_multiset().len());
}

/// Finds the first queued client whose top lies strictly above `bottom`.
fn find_first_inside(q: &Vec<Client>, bottom: i64) -> (r: Option<usize>)
    ensures
        match r {
            Some(i) => i < q.len() && first_inside(q@, bottom as int) == Some(i as int),
            None => first_inside(q@, bottom as int) is None,
        },
{
    let mut i: usize = 0;
    while i < q.len()
        invariant
            i <= q.len(),
            forall|k: int| 0 <= k < i ==> !((#[trigger] q@[k]).y < bottom as int),
        decreases q.len() - i,
    {
        if (q[i].y as i64) < bottom {
            proof {
                lemma_first_inside_spec(q@, bottom as int);
            }
            return Some(i);
        }
        i += 1;
    }
    proof {
        lemma_first_inside_spec(q@, bottom as int);
    }
    None
}

/// Finds the first queued client left of `cx` whose top lies above `cb`.
fn find_first_left(q: &Vec<Client>, cx: i32, cb: i64) -> (r: Option<usize>)
    ensures
        match r {
            Some(j) => j < q.len() && first_left(q@, cx as int, cb as int) == Some(j as int),
            None => first_left(q@, cx as int, cb as int) is None,
        },
{
    let mut i: usize = 0;
    while i < q.len()
        invariant
            i <= q.len(),
            forall|k: int|
                0 <= k < i ==> !((#[trigger] q@[k]).x < cx as int && q@[k].y < cb as int),
        decreases q.len() - i,
    {
        if q[i].x < cx && (q[i].y as i64) < cb {
            proof {
                lemma_first_left_spec(q@, cx as int, cb as int);
            }
            return Some(i);
        }
        i += 1;
    }
    proof {
        lemma_first_left_spec(q@, cx as int, cb as int);
    }
    None
}

/// `insert_xy`, located: the insertion point is the first position whose
/// element does not read strictly earlier than `c`.
pub proof fn lemma_insert_xy_at(c: Client, s: Seq<Client>, i: int)
    requires
        0 <= i <= s.len(),
        forall|k: int| 0 <= k < i ==> xy_lt(#[trigger] s[k], c),
        i < s.len() ==> !xy_lt(s[i], c),
    ensures
        insert_xy(c, s) == s.insert(i, c),
    decreases i,
{
    if s.len() == 0 {
        assert(insert_xy(c, s) =~= s.insert(0, c));
    } else if i == 0 {
        assert(insert_xy(c, s) =~= s.insert(0, c));
    } else {
        assert(xy_lt(s[0], c));
        lemma_insert_xy_at(c, s.drop_first(), i - 1);
        assert(forall|k: int| 0 <= k < s.len() - 1 ==> s.drop_first()[k] == s[k + 1]);
        assert(insert_xy(c, s) =~= s.insert(i, c));
    }
}

/// Inserts `c` into `v` at the stable position the primary order assigns it.
fn insert_sorted(v: &mut Vec<Client>, c: Client)
    ensures
        final(v)@ == insert_xy(c, old(v)@),
{
    let mut i: usize = 0;
    while i < v.len() && (v[i].x < c.x || (v[i].x == c.x && v[i].y < c.y))
        invariant
            i <= v.len(),
            v@ == old(v)@,
            forall|k: int| 0 <= k < i ==> xy_lt(#[trigger] v@[k], c),
        decreases v.len() - i,
    {
        i += 1;
    }
    proof {
        lemma_insert_xy_at(c, v@, i as int);
    }
    v.insert(i, c);
}

/// The primary ordering pass over one bucket.
fn sort_by_xy(clients: &Vec<Client>) -> (r: Vec<Client>)
    ensures
        r@ == sort_xy(clients@),
{
    let mut out: Vec<Client> = Vec::new();
    let mut k: usize = clients.len();
    proof {
        assert(clients@.skip(clients@.len() as int) =~= Seq::empty());
    }
    while k > 0
        invariant
            k <= clients.len(),
            out@ == sort_xy(clients@.skip(k as int)),
        decreases k,
    {
        k -= 1;
        insert_sorted(&mut out, clients[k]);
        proof {
            assert(clients@.skip(k as int).drop_first() =~= clients@.skip(k as int + 1));
            assert(clients@.skip(k as int)[0] == clients@[k as int]);
        }
    }
    proof {
        assert(clients@.skip(0) =~= clients@);
    }
    out
}

/// Sorts one innermost bucket into reading order: the stable primary pass by
/// `(x, y)`, then the greedy row extraction loop.
pub fn sort_bucket(clients: Vec<Client>) -> (r: Vec<Client>)
    ensures
        r@ == sort_bucket_spec(clients@),
        r@.to_multiset() == clients@.to_multiset(),
        r@.len() == clients@.len(),
{
    proof {
        lemma_sort_bucket_multiset(clients@);
        broadcast use vstd::seq_lib::group_to_multiset_ensures;
    }
    let mut q = sort_by_xy(&clients);
    let ghost total = next_rows(q@);
    let mut out: Vec<Client> = Vec::new();
    while q.len() > 0
        invariant
            total == out@ + next_rows(q@),
        decreases q.len(),
    {
        let ghost q_row = q@;
        let anchor = q.remove(0);
        out.push(anchor);
        let mut bottom: i64 = anchor.y as i64 + anchor.h as i64;
        proof {
            assert(q@ =~= q_row.drop_first());
            assert(next_rows(q_row) == seq![anchor] + row_rest(q@, bottom as int));
            assert(total == out@ + row_rest(q@, bottom as int));
        }
        let mut in_row = true;
        while in_row
            invariant
                q.len() < q_row.len(),
                in_row ==> total == out@ + row_rest(q@, bottom as int),
                !in_row ==> total == out@ + next_rows(q@),
            decreases q.len(), (if in_row { 1int } else { 0int }),
        {
            match find_first_inside(&q, bottom) {
                None => {
                    in_row = false;
                },
                Some(i) => {
                    let c = q[i];
                    let cb: i64 = c.y as i64 + c.h as i64;
                    let ghost q_step = q@;
                    let ghost b_step = bottom as int;
                    match find_first_left(&q, c.x, cb) {
                        Some(j) => {
                            let sel = q.remove(j);
                            bottom = sel.y as i64 + sel.h as i64;
                            out.push(sel);
                            proof {
                                assert(row_rest(q_step, b_step) == seq![sel] + row_rest(
                                    q@,
                                    bottom as int,
                                ));
                            }
                        },
                        None => {
                            let sel = q.remove(i);
                            out.push(sel);
                            proof {
                                assert(row_rest(q_step, b_step) == seq![sel] + row_rest(
                                    q@,
                                    bottom as int,
                                ));
                            }
                        },
                    }
                },
            }
        }
    }
    proof {
        assert(next_rows(q@) =~= Seq::empty());
        assert(out@ =~= total);
    }
    out
}

} // verus!
