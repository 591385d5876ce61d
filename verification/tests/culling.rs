use mcrs::chunk::culling::{Side, VisibilityGraph, VisibilityGraphStorage, get_neighbors,
    visible_chunks};
use mcrs::chunk::{ChunkConfig, ChunkData, ChunkStorage};
use mcrs::util::vec_set::VecSet;

fn create_mock_config() -> ChunkConfig {
    ChunkConfig::new(8, 3)
}

#[test]
fn visibility_graph_full_chunk() {
    let config = create_mock_config();
    let mut full_chunk_data = ChunkData::new();

    // fill the chunk with blocks
    for x in 0..config.depth {
        for y in 0..config.depth {
            for z in 0..config.depth {
                full_chunk_data.insert((x, y, z), 2);
            }
        }
    }

    let vis_graph = VisibilityGraph::from_chunk(&config, &full_chunk_data);

    // iter over each entry to check if any are false
    for side1 in Side::iter() {
        for side2 in Side::iter() {
            if side1 == side2 {
                assert!(vis_graph.can_reach_from(side1, side2));
                continue;
            }
            assert!(!vis_graph.can_reach_from(side1, side2));
        }
    }
}

#[test]
fn visibility_graph_empty_chunk() {
    let config = create_mock_config();
    let empty_chunk_data = ChunkData::new();
    let vis_graph = VisibilityGraph::from_chunk(&config, &empty_chunk_data);

    // iter over each entry to check if any are false
    for side1 in Side::iter() {
        for side2 in Side::iter() {
            assert!(vis_graph.can_reach_from(side1, side2));
        }
    }
}

#[test]
fn visibility_graph_split_chunk() {
    let config = create_mock_config();
    let mut split_chunk_data = ChunkData::new();

    // fill the chunk with a full wall at one x plane
    for x in 0..config.depth {
        for y in 0..config.depth {
            for z in 0..config.depth {
                if x == 3 {
                    split_chunk_data.insert((x, y, z), 2);
                }
            }
        }
    }

    let vis_graph = VisibilityGraph::from_chunk(&config, &split_chunk_data);

    for side1 in Side::iter() {
        for side2 in Side::iter() {
            if (side1 == Side::RIGHT && side2 == Side::LEFT)
                || (side2 == Side::RIGHT && side1 == Side::LEFT)
            {
                assert!(!vis_graph.can_reach_from(side1, side2));
                continue;
            }

            assert!(
                vis_graph.can_reach_from(side1, side2),
                "{:?} - {:?}",
                side1,
                side2
            );
        }
    }
}

#[test]
fn side_opposites_pair_up() {
    for side in Side::iter() {
        assert_eq!(side.opposite().opposite(), side);
        assert_ne!(side.opposite(), side);
    }
}

#[test]
fn neighbors_of_loaded_chunks_only() {
    let mut loaded = ChunkStorage::new();
    loaded.insert((0, 0, 0), ChunkData::new());
    loaded.insert((0, 1, 0), ChunkData::new());
    loaded.insert((1, 0, 0), ChunkData::new());

    let neighbors = get_neighbors(&loaded, &(0, 0, 0));
    assert_eq!(neighbors.len(), 2);
    assert_eq!(neighbors[0], (Side::TOP, (0, 1, 0)));
    assert_eq!(neighbors[1], (Side::RIGHT, (1, 0, 0)));
}

#[test]
fn traversal_starts_at_observer_and_visits_open_neighbors() {
    let config = create_mock_config();
    let empty = ChunkData::new();
    let open_graph = VisibilityGraph::from_chunk(&config, &empty);

    let mut loaded = ChunkStorage::new();
    let mut graphs = VisibilityGraphStorage::new();
    let mut frustum = VecSet::new();
    for x in 0..3 {
        loaded.insert((x, 0, 0), ChunkData::new());
        graphs.insert((x, 0, 0), VisibilityGraph::from_chunk(&config, &empty));
        frustum.insert((x, 0, 0));
    }
    let _ = open_graph;

    let order = visible_chunks(&loaded, &graphs, (0, 0, 0), &frustum);
    assert_eq!(order.len(), 3);
    assert_eq!(order[0], (0, 0, 0));
    assert!(order.contains(&(1, 0, 0)));
    assert!(order.contains(&(2, 0, 0)));
}

#[test]
fn traversal_prunes_behind_solid_chunks() {
    let config = create_mock_config();
    let empty = ChunkData::new();
    let mut solid = ChunkData::new();
    for x in 0..config.depth {
        for y in 0..config.depth {
            for z in 0..config.depth {
                solid.insert((x, y, z), 2);
            }
        }
    }

    let mut loaded = ChunkStorage::new();
    let mut graphs = VisibilityGraphStorage::new();
    let mut frustum = VecSet::new();
    for x in 0..3 {
        loaded.insert((x, 0, 0), ChunkData::new());
        frustum.insert((x, 0, 0));
    }
    graphs.insert((0, 0, 0), VisibilityGraph::from_chunk(&config, &empty));
    // sight cannot pass through the middle chunk
    graphs.insert((1, 0, 0), VisibilityGraph::from_chunk(&config, &solid));
    graphs.insert((2, 0, 0), VisibilityGraph::from_chunk(&config, &empty));

    let order = visible_chunks(&loaded, &graphs, (0, 0, 0), &frustum);
    assert_eq!(order.len(), 2);
    assert_eq!(order[0], (0, 0, 0));
    assert!(order.contains(&(1, 0, 0)));
    assert!(!order.contains(&(2, 0, 0)));
}
