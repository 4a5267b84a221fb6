use window_switcher::client::Client;
use window_switcher::rows::sort_bucket;
use window_switcher::sorting::{sort_clients, sort_clients_checked};

fn mock(x: i32, y: i32, w: i32, h: i32, workspace: i64, monitor: i64, id: u64) -> Client {
    Client { id, x, y, w, h, monitor, workspace }
}

fn ids(clients: &[Client]) -> Vec<u64> {
    clients.iter().map(|c| c.id).collect()
}

/// A 2x2 grid read row-major: a taller top row, then a shorter bottom row.
#[test]
fn grid_two_by_two() {
    let clients = vec![
        mock(1, 1, 2, 3, 0, 0, 1),
        mock(3, 1, 2, 3, 0, 0, 2),
        mock(1, 5, 2, 2, 0, 0, 3),
        mock(3, 5, 2, 2, 0, 0, 4),
    ];
    let ve = sort_clients(clients, false, false);
    assert_eq!(ids(&ve), vec![1, 2, 3, 4]);
}

/// A short client at (3, 4) sits beneath a taller one at (3, 1).  The later
/// left client of the lower band must still come before the short one.
#[test]
fn uneven_row_keeps_left_first() {
    let clients = vec![
        mock(1, 1, 2, 3, 0, 0, 1),
        mock(3, 1, 2, 3, 0, 0, 2),
        mock(3, 4, 2, 2, 0, 0, 3),
        mock(1, 5, 2, 2, 0, 0, 4),
    ];
    let ve = sort_clients(clients, false, false);
    assert_eq!(ids(&ve), vec![1, 2, 4, 3]);
}

/// A tall right client makes the scan pull in a left client that starts
/// below the anchor's bottom edge, extending the row band to it.
#[test]
fn row_band_extends_to_left_client() {
    let clients = vec![
        mock(1, 1, 2, 4, 0, 0, 1),
        mock(3, 1, 2, 3, 0, 0, 2),
        mock(3, 4, 2, 4, 0, 0, 3),
        mock(1, 5, 2, 2, 0, 0, 4),
    ];
    let ve = sort_clients(clients, false, false);
    assert_eq!(ids(&ve), vec![1, 2, 4, 3]);
}

#[test]
fn empty_input_yields_empty_output() {
    let ve = sort_clients(Vec::new(), false, false);
    assert!(ve.is_empty());
    let ve = sort_clients(Vec::new(), true, false);
    assert!(ve.is_empty());
    let ve = sort_clients(Vec::new(), false, true);
    assert!(ve.is_empty());
}

/// Cardinality preservation on a concrete snapshot: the output is a
/// permutation of the input, including clients at identical positions.
#[test]
fn output_is_permutation_of_input() {
    let clients = vec![
        mock(4, 4, 1, 1, 0, 0, 1),
        mock(4, 4, 1, 1, 0, 0, 2),
        mock(-3, -2, 5, 5, 1, 0, 3),
        mock(0, 0, 2, 2, 10, 1, 4),
        mock(0, 0, 2, 2, 10, 1, 5),
    ];
    let ve = sort_clients(clients, false, false);
    let mut got = ids(&ve);
    got.sort();
    assert_eq!(got, vec![1, 2, 3, 4, 5]);
}

/// Clients at identical positions keep their input order.
#[test]
fn equal_positions_stay_stable() {
    let a = vec![mock(1, 1, 1, 1, 0, 0, 1), mock(1, 1, 1, 1, 0, 0, 2)];
    let b = vec![mock(1, 1, 1, 1, 0, 0, 2), mock(1, 1, 1, 1, 0, 0, 1)];
    assert_eq!(ids(&sort_clients(a, false, false)), vec![1, 2]);
    assert_eq!(ids(&sort_clients(b, false, false)), vec![2, 1]);
}

/// Partition respecting: monitors come out as contiguous blocks in ascending
/// key order, workspaces likewise within one monitor.
#[test]
fn groups_stay_contiguous() {
    let clients = vec![
        mock(0, 0, 1, 1, 7, 2, 1),
        mock(0, 0, 1, 1, 5, 1, 2),
        mock(9, 0, 1, 1, 4, 1, 3),
        mock(0, 9, 1, 1, 7, 2, 4),
        mock(5, 5, 1, 1, 4, 1, 5),
    ];
    let ve = sort_clients(clients, false, false);
    let monitors: Vec<i64> = ve.iter().map(|c| c.monitor).collect();
    assert_eq!(monitors, vec![1, 1, 1, 2, 2]);
    let workspaces: Vec<i64> = ve.iter().map(|c| c.workspace).collect();
    assert_eq!(workspaces, vec![4, 4, 5, 7, 7]);
    assert_eq!(ids(&ve), vec![5, 3, 2, 1, 4]);
}

/// Idempotence: feeding the sorted output back in reproduces it exactly.
#[test]
fn sorting_twice_changes_nothing() {
    let modes = [(false, false), (true, false), (false, true)];
    for (iw, im) in modes {
        let clients = vec![
            mock(1, 1, 1, 4, 0, 0, 1),
            mock(3, 1, 1, 3, 0, 0, 2),
            mock(3, 4, 1, 4, 1, 0, 3),
            mock(1, 5, 1, 2, 1, 0, 4),
            mock(-2, 0, 2, 2, 10, 1, 5),
            mock(-2, 0, 2, 2, 10, 1, 6),
        ];
        let once = sort_clients(clients, iw, im);
        let twice = sort_clients(once.clone(), iw, im);
        assert_eq!(ids(&twice), ids(&once));
    }
}

/// The checked entry point accepts every supported mode and refuses the
/// unsupported one, deterministically.
#[test]
fn checked_entry_point_matches_flags() {
    for _ in 0..3 {
        let r = sort_clients_checked(vec![mock(0, 0, 1, 1, 0, 0, 1)], true, true);
        assert!(r.is_err());
    }
    let r = sort_clients_checked(vec![mock(0, 0, 1, 1, 0, 0, 1)], false, false);
    assert_eq!(ids(&r.unwrap()), vec![1]);
    let r = sort_clients_checked(Vec::new(), true, false);
    assert_eq!(r, Ok(Vec::new()));
    let r = sort_clients_checked(Vec::new(), false, true);
    assert_eq!(r, Ok(Vec::new()));
}

/// A client overlapping nobody forms a row of its own.
#[test]
fn lone_client_forms_own_row() {
    let clients = vec![
        mock(0, 0, 2, 2, 0, 0, 1),
        mock(0, 10, 2, 2, 0, 0, 2),
        mock(5, 20, 2, 2, 0, 0, 3),
    ];
    let ve = sort_bucket(clients);
    assert_eq!(ids(&ve), vec![1, 2, 3]);
}

/// Negative keys order like any others: ascending.
#[test]
fn negative_keys_order_ascending() {
    let clients = vec![
        mock(0, 0, 1, 1, 3, 0, 1),
        mock(0, 0, 1, 1, -5, 0, 2),
        mock(2, 0, 1, 1, -5, 0, 3),
    ];
    let ve = sort_clients(clients, false, true);
    assert_eq!(ids(&ve), vec![2, 3, 1]);
}
