use window_switcher::client::Client;
use window_switcher::sorting::{sort_clients, sort_clients_checked, SortError};

/// Builds a client in the field order x, y, w, h, workspace, monitor, id.
fn mock(x: i32, y: i32, w: i32, h: i32, workspace: i64, monitor: i64, id: u64) -> Client {
    Client { id, x, y, w, h, monitor, workspace }
}

fn ids(clients: &[Client]) -> Vec<u64> {
    clients.iter().map(|c| c.id).collect()
}

/// Two monitors with two workspaces each; coordinates as the compositor
/// reports them per workspace.  With full grouping each workspace is its own
/// bucket, so per-workspace offsets play no role.
fn two_monitor_snapshot() -> Vec<Client> {
    vec![
        mock(1, 1, 1, 3, 0, 0, 1),
        mock(3, 1, 1, 3, 0, 0, 2),
        mock(1, 5, 1, 2, 0, 0, 3),
        mock(3, 5, 1, 2, 0, 0, 4),
        mock(1, 1, 1, 3, 1, 0, 5),
        mock(3, 1, 1, 2, 1, 0, 6),
        mock(3, 4, 1, 3, 1, 0, 7),
        mock(1, 5, 1, 2, 1, 0, 8),
        mock(5, 1, 1, 3, 10, 1, 9),
        mock(7, 1, 2, 3, 10, 1, 10),
        mock(5, 5, 2, 2, 10, 1, 11),
        mock(8, 5, 1, 2, 10, 1, 12),
        mock(5, 1, 1, 3, 11, 1, 13),
        mock(7, 1, 2, 2, 11, 1, 14),
        mock(7, 4, 2, 3, 11, 1, 15),
        mock(5, 5, 1, 2, 11, 1, 16),
    ]
}

#[test]
fn default() {
    let clients = two_monitor_snapshot();
    let ve = sort_clients(clients, false, false);
    assert_eq!(
        ids(&ve),
        vec![1, 2, 3, 4, 5, 6, 8, 7, 9, 10, 11, 12, 13, 14, 16, 15]
    );
}

#[test]
fn ignore_workspaces() {
    // The same snapshot with the second workspace of each monitor already
    // shifted into the shared coordinate space (five columns to the right),
    // as the upstream position normalization would deliver it.
    let ve = vec![
        mock(1, 1, 1, 3, 0, 0, 1),
        mock(3, 1, 1, 3, 0, 0, 2),
        mock(1, 5, 1, 2, 0, 0, 6),
        mock(3, 5, 1, 2, 0, 0, 7),
        mock(6, 1, 1, 3, 1, 0, 3),
        mock(8, 1, 1, 2, 1, 0, 4),
        mock(8, 4, 1, 3, 1, 0, 5),
        mock(6, 5, 1, 2, 1, 0, 8),
        mock(5, 1, 1, 3, 10, 1, 9),
        mock(7, 1, 2, 3, 10, 1, 10),
        mock(5, 5, 2, 2, 10, 1, 14),
        mock(8, 5, 1, 2, 10, 1, 15),
        mock(10, 1, 1, 3, 11, 1, 11),
        mock(12, 1, 2, 2, 11, 1, 12),
        mock(12, 4, 2, 3, 11, 1, 13),
        mock(10, 5, 1, 2, 11, 1, 16),
    ];
    let ve = sort_clients(ve, true, false);
    assert_eq!(
        ids(&ve),
        vec![1, 2, 3, 4, 6, 7, 8, 5, 9, 10, 11, 12, 14, 15, 16, 13]
    );
}

#[test]
fn ignore_monitor() {
    let ve = vec![
        mock(1, 1, 1, 3, 0, 0, 1),
        mock(3, 1, 1, 3, 0, 0, 2),
        mock(1, 5, 1, 2, 0, 0, 5),
        mock(3, 5, 1, 2, 0, 0, 6),
        mock(1, 1, 1, 3, 1, 0, 9),
        mock(3, 1, 1, 2, 1, 0, 10),
        mock(3, 4, 1, 3, 1, 0, 11),
        mock(1, 5, 1, 2, 1, 0, 15),
        mock(5, 1, 1, 3, 10, 1, 3),
        mock(7, 1, 2, 3, 10, 1, 4),
        mock(5, 5, 2, 2, 10, 1, 7),
        mock(8, 5, 1, 2, 10, 1, 8),
        mock(5, 1, 1, 3, 11, 1, 12),
        mock(7, 1, 2, 2, 11, 1, 13),
        mock(7, 4, 2, 3, 11, 1, 14),
        mock(5, 5, 1, 2, 11, 1, 16),
    ];
    let ve = sort_clients(ve, false, true);
    assert_eq!(
        ids(&ve),
        vec![1, 2, 5, 6, 9, 10, 15, 11, 3, 4, 7, 8, 12, 13, 16, 14]
    );
}

#[test]
fn ignore_monitor_ignore_workspace() {
    let ve = vec![
        mock(1, 1, 1, 3, 0, 0, 1),
        mock(3, 1, 1, 3, 0, 0, 2),
        mock(1, 5, 1, 2, 0, 0, 11),
        mock(3, 5, 1, 2, 0, 0, 12),
        mock(1, 1, 1, 3, 1, 0, 3),
        mock(3, 1, 1, 2, 1, 0, 4),
        mock(3, 4, 1, 3, 1, 0, 5),
        mock(1, 5, 1, 2, 1, 0, 13),
        mock(5, 1, 1, 3, 10, 1, 6),
        mock(7, 1, 2, 3, 10, 1, 7),
        mock(5, 5, 2, 2, 10, 1, 14),
        mock(8, 5, 1, 2, 10, 1, 15),
        mock(5, 1, 1, 3, 11, 1, 8),
        mock(7, 1, 2, 2, 11, 1, 9),
        mock(7, 4, 2, 3, 11, 1, 10),
        mock(5, 5, 1, 2, 11, 1, 16),
    ];
    // Ignoring both grouping dimensions is an unimplemented mode: the call
    // must be refused deterministically, never degraded to a single bucket.
    let r = sort_clients_checked(ve, true, true);
    assert_eq!(r, Err(SortError::ConflictingIgnoreFlags));
}
