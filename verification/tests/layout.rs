use trx_engine::builder::ProjectBuilder;
use trx_engine::layout::collect_all_node_ids;
use trx_engine::layout::layered_cells;
use trx_engine::layout::ranking::topological_ranks;
use trx_engine::parser::parse;

#[test]
fn ranks_of_a_chain() {
    let (rank, order) = topological_ranks(3, &vec![(0, 1), (1, 2)]);
    assert_eq!(rank, vec![0, 1, 2]);
    assert_eq!(order, vec![0, 1, 2]);
}

#[test]
fn ranks_of_a_diamond() {
    let (rank, order) = topological_ranks(4, &vec![(0, 1), (0, 2), (1, 3), (2, 3)]);
    assert_eq!(rank, vec![0, 1, 1, 2]);
    assert_eq!(order.len(), 4);
    assert_eq!(order[0], 0);
    assert_eq!(order[3], 3);
}

#[test]
fn cycle_nodes_stay_unsettled() {
    let (rank, order) = topological_ranks(3, &vec![(0, 1), (1, 0), (2, 0)]);
    assert_eq!(order, vec![2]);
    assert_eq!(rank[2], 0);
    assert_eq!(rank.len(), 3);
}

#[test]
fn cells_of_a_small_diagram() {
    let mut b = ProjectBuilder::new();
    let d = b.add_diagram("G");
    b.add_edge(d, "A", "B", None);
    b.add_edge(d, "A", "C", None);
    let p = b.build();
    let cells = layered_cells(&p.diagrams[0]);
    assert_eq!(cells, vec![(0, 0), (0, 1), (1, 1)]);
}

#[test]
fn node_ids_in_pre_order() {
    let p = parse("# D\nA\nlayer L { B\nlayer M { C } }\nD\n").unwrap();
    let ids = collect_all_node_ids(&p.diagrams[0].root);
    assert_eq!(ids, vec!["A", "D", "B", "C"]);
}
