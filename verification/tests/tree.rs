use parchmint::tree::LazyTreeSnapshot;
use std::time::{Duration, Instant};

#[test]
fn ten_thousand_node_snapshot_is_lazy_and_fast() {
    let start = Instant::now();
    let tree = LazyTreeSnapshot::stress_fixture(10_000);
    let elapsed = start.elapsed();
    assert_eq!(tree.len(), 10_000);
    assert_eq!(tree.visible_rows(9_990, 40).len(), 10);
    assert!(
        elapsed < Duration::from_millis(100),
        "construction took {elapsed:?}"
    );
}

#[test]
fn records_tree_stress_measurement() {
    for nodes in [100, 1_000, 10_000] {
        let start = Instant::now();
        let tree = LazyTreeSnapshot::stress_fixture(nodes);
        let build = start.elapsed();
        let scroll_start = Instant::now();
        let mut observed = 0;
        for start in (0..nodes).step_by(12) {
            observed += tree
                .visible_rows(usize::try_from(start).unwrap_or(usize::MAX), 40)
                .len();
        }
        let scroll = scroll_start.elapsed();
        println!(
            "scale nodes={nodes} tree-build={build:?}; simulated-scroll={scroll:?}; observed={observed}"
        );
        if nodes == 10_000 {
            assert!(
                build < Duration::from_millis(100),
                "tree build took {build:?}"
            );
            assert!(
                scroll < Duration::from_millis(100),
                "consumer projection exceeded 100 ms"
            );
        }
    }
}

#[test]
fn visible_rows_clamp_to_the_snapshot() {
    let tree = LazyTreeSnapshot::stress_fixture(25);
    assert_eq!(tree.visible_rows(0, 10).len(), 10);
    assert_eq!(tree.visible_rows(20, 10).len(), 5);
    assert!(tree.visible_rows(25, 10).is_empty());
    assert!(tree.visible_rows(usize::MAX, usize::MAX).is_empty());
    assert_eq!(tree.visible_rows(3, usize::MAX).len(), 22);
    let empty = LazyTreeSnapshot::stress_fixture(0);
    assert!(empty.is_empty());
    assert_eq!(empty.len(), 0);
}

#[test]
fn stress_rows_are_grouped_in_sections() {
    let tree = LazyTreeSnapshot::stress_fixture(12);
    let rows = tree.visible_rows(0, 12);
    assert_eq!(rows[0].id, 0);
    assert_eq!(rows[0].parent, None);
    assert_eq!(rows[0].depth, 0);
    assert_eq!(rows[10].parent, Some(0));
    assert_eq!(rows[10].depth, 1);
    assert_eq!(rows[11].parent, Some(1));
    assert_eq!(rows[11].depth, 2);
    assert_eq!(rows[11].title, "Section 11");
}

#[test]
fn stress_row_depth_is_one_below_its_parent() {
    let tree = LazyTreeSnapshot::stress_fixture(1_200);
    let rows = tree.visible_rows(0, 1_200);
    assert_eq!(rows[111].parent, Some(11));
    assert_eq!(rows[111].depth, 3);
    assert_eq!(rows[1_111].depth, 4);
    for row in rows.iter().skip(1) {
        let parent = row.parent.unwrap() as usize;
        assert_eq!(row.depth, rows[parent].depth + 1);
    }
}
