use dataflow_join::graph::{GraphError, GraphStore};
use dataflow_join::typedrw::{read_u32, read_u32s, read_u64, read_u64s};

fn container(nodes: u64, offsets: &[u64], edges: &[u32]) -> Vec<u8> {
    let mut bytes = Vec::new();
    bytes.extend_from_slice(&nodes.to_le_bytes());
    for offset in offsets {
        bytes.extend_from_slice(&offset.to_le_bytes());
    }
    for edge in edges {
        bytes.extend_from_slice(&edge.to_le_bytes());
    }
    bytes
}

fn sample() -> GraphStore {
    // 0 -> 1, 0 -> 2, 1 -> 2, 2 -> 0
    GraphStore::new(vec![0, 2, 3, 4, 4], vec![1, 2, 2, 0]).unwrap()
}

#[test]
fn read_u32_is_little_endian() {
    let bytes = [0x78u8, 0x56, 0x34, 0x12, 0xff];
    assert_eq!(read_u32(&bytes, 0), 0x1234_5678);
    assert_eq!(read_u32(&bytes, 1), 0xff12_3456);
}

#[test]
fn read_u64_is_little_endian() {
    let bytes = [0x08u8, 0x07, 0x06, 0x05, 0x04, 0x03, 0x02, 0x01];
    assert_eq!(read_u64(&bytes, 0), 0x0102_0304_0506_0708);
    assert_eq!(read_u64(&u64::MAX.to_le_bytes(), 0), u64::MAX);
}

#[test]
fn read_many_values() {
    let mut bytes = vec![0xaau8];
    for x in [1u32, 0x0100, 0xdead_beef] {
        bytes.extend_from_slice(&x.to_le_bytes());
    }
    assert_eq!(read_u32s(&bytes, 1, 3), vec![1, 0x0100, 0xdead_beef]);
    assert_eq!(read_u32s(&bytes, 1, 0), Vec::<u32>::new());
    let mut wide = Vec::new();
    for x in [7u64, 1 << 40, u64::MAX] {
        wide.extend_from_slice(&x.to_le_bytes());
    }
    assert_eq!(read_u64s(&wide, 0, 3), vec![7, 1 << 40, u64::MAX]);
    assert_eq!(read_u64s(&wide, 8, 2), vec![1 << 40, u64::MAX]);
}

#[test]
fn store_reports_node_count() {
    let graph = sample();
    assert_eq!(graph.node_count(), 4);
    assert_eq!(graph.nodes(), 4);
}

#[test]
fn store_returns_neighbors() {
    let graph = sample();
    assert_eq!(graph.neighbors(0), Ok(&[1u32, 2][..]));
    assert_eq!(graph.neighbors(1), Ok(&[2u32][..]));
    assert_eq!(graph.neighbors(2), Ok(&[0u32][..]));
    assert_eq!(graph.neighbors(3), Ok(&[][..]));
    assert_eq!(graph.edges(0), &[1, 2]);
    assert_eq!(graph.edges(3), &[] as &[u32]);
}

#[test]
fn neighbors_out_of_range() {
    let graph = sample();
    assert_eq!(graph.neighbors(4), Err(GraphError::OutOfRange));
    assert_eq!(graph.neighbors(u64::MAX), Err(GraphError::OutOfRange));
}

#[test]
fn non_monotonic_offsets_are_corrupt() {
    let result = GraphStore::new(vec![0, 3, 2, 4], vec![1, 2, 0, 1]);
    assert!(matches!(result, Err(GraphError::CorruptGraph)));
    let late = GraphStore::new(vec![0, 1, 2, 4, 3], vec![1, 2, 0]);
    assert!(matches!(late, Err(GraphError::CorruptGraph)));
}

#[test]
fn offsets_past_the_edge_block_are_corrupt() {
    let result = GraphStore::new(vec![0, 2, 5], vec![1, 0, 1]);
    assert!(matches!(result, Err(GraphError::CorruptGraph)));
}

#[test]
fn offsets_short_of_the_edge_block_are_corrupt() {
    let result = GraphStore::new(vec![0, 1, 2], vec![1, 0, 1]);
    assert!(matches!(result, Err(GraphError::CorruptGraph)));
}

#[test]
fn empty_offset_table_is_corrupt() {
    let result = GraphStore::new(Vec::new(), Vec::new());
    assert!(matches!(result, Err(GraphError::CorruptGraph)));
}

#[test]
fn graph_without_nodes_is_valid() {
    let graph = GraphStore::new(vec![0], Vec::new()).unwrap();
    assert_eq!(graph.node_count(), 0);
    assert_eq!(graph.neighbors(0), Err(GraphError::OutOfRange));
    assert!(graph.is_sorted());
}

#[test]
fn from_bytes_reads_the_container() {
    let bytes = container(4, &[0, 2, 3, 4, 4], &[1, 2, 2, 0]);
    let graph = GraphStore::from_bytes(&bytes).unwrap();
    assert_eq!(graph.node_count(), 4);
    assert_eq!(graph.neighbors(0), Ok(&[1u32, 2][..]));
    assert_eq!(graph.neighbors(1), Ok(&[2u32][..]));
    assert_eq!(graph.neighbors(2), Ok(&[0u32][..]));
    assert_eq!(graph.neighbors(3), Ok(&[][..]));
    assert_eq!(graph.neighbors(4), Err(GraphError::OutOfRange));
}

#[test]
fn from_bytes_rejects_non_monotonic_offsets() {
    let bytes = container(4, &[0, 3, 2, 4, 4], &[1, 2, 2, 0]);
    assert!(matches!(GraphStore::from_bytes(&bytes), Err(GraphError::CorruptGraph)));
}

#[test]
fn from_bytes_rejects_offsets_that_miss_the_block_size() {
    let long = container(2, &[0, 1, 3], &[1, 0]);
    assert!(matches!(GraphStore::from_bytes(&long), Err(GraphError::CorruptGraph)));
    let short = container(2, &[0, 1, 1], &[1, 0]);
    assert!(matches!(GraphStore::from_bytes(&short), Err(GraphError::CorruptGraph)));
}

#[test]
fn from_bytes_rejects_truncated_containers() {
    assert!(matches!(GraphStore::from_bytes(&[]), Err(GraphError::CorruptGraph)));
    assert!(matches!(GraphStore::from_bytes(&[1, 0, 0]), Err(GraphError::CorruptGraph)));
    let header_only = 3u64.to_le_bytes();
    assert!(matches!(GraphStore::from_bytes(&header_only), Err(GraphError::CorruptGraph)));
    let mut bytes = container(4, &[0, 2, 3, 4, 4], &[1, 2, 2, 0]);
    bytes.truncate(8 + 8 * 4);
    assert!(matches!(GraphStore::from_bytes(&bytes), Err(GraphError::CorruptGraph)));
    let huge = container(u64::MAX, &[0], &[]);
    assert!(matches!(GraphStore::from_bytes(&huge), Err(GraphError::CorruptGraph)));
}

#[test]
fn from_bytes_rejects_a_ragged_edge_block() {
    let mut bytes = container(1, &[0, 1], &[0]);
    bytes.push(0);
    assert!(matches!(GraphStore::from_bytes(&bytes), Err(GraphError::CorruptGraph)));
}

#[test]
fn from_bytes_accepts_the_empty_graph() {
    let bytes = container(0, &[0], &[]);
    let graph = GraphStore::from_bytes(&bytes).unwrap();
    assert_eq!(graph.node_count(), 0);
}

#[test]
fn sorted_lists_are_recognized() {
    assert!(sample().is_sorted());
}

#[test]
fn unsorted_lists_are_recognized() {
    let descending = GraphStore::new(vec![0, 2, 2, 2], vec![2, 1]).unwrap();
    assert!(!descending.is_sorted());
    let repeated = GraphStore::new(vec![0, 2, 2, 2], vec![1, 1]).unwrap();
    assert!(!repeated.is_sorted());
    let unknown = GraphStore::new(vec![0, 1, 1], vec![2]).unwrap();
    assert!(!unknown.is_sorted());
    let later = GraphStore::new(vec![0, 1, 3, 3], vec![1, 2, 0]).unwrap();
    assert!(!later.is_sorted());
}

#[test]
fn graph_errors_compare_and_print() {
    assert_ne!(GraphError::OutOfRange, GraphError::CorruptGraph);
    assert_eq!(format!("{:?}", GraphError::CorruptGraph), "CorruptGraph");
    assert_eq!(format!("{:?}", GraphError::OutOfRange), "OutOfRange");
}
