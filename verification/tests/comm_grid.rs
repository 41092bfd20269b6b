use mddem::comm::{
    finalize_mpi, neighbor_ranks, pos_to_rank, processor_grid, CommConfig, CommError, CommState, SingleProcessComm,
};

#[test]
fn single_process_grid() {
    let config = CommConfig::default();
    assert_eq!(processor_grid(&config, 0, 1), Ok(([1, 1, 1], [0, 0, 0])));
    assert_eq!(CommState::default(), CommState::FullRebuild);
    finalize_mpi();
}

#[test]
fn grid_must_match_rank_count() {
    let config = CommConfig { processors_x: 2, processors_y: 2, processors_z: 1 };
    assert_eq!(processor_grid(&config, 0, 3), Err(CommError::GridMismatch { product: 4, size: 3 }));
}

#[test]
fn rank_positions_round_trip() {
    let config = CommConfig { processors_x: 2, processors_y: 3, processors_z: 2 };
    for rank in 0..12 {
        let (decomp, pos) = processor_grid(&config, rank, 12).unwrap();
        assert_eq!(decomp, [2, 3, 2]);
        assert_eq!(pos_to_rank(pos, decomp), rank);
    }
}

#[test]
fn neighbors_wrap_only_on_periodic_axes() {
    let decomp = [2, 1, 1];
    let n = neighbor_ranks([0, 0, 0], decomp, [true, false, true]);
    assert_eq!(n.forward[0], 1);
    assert_eq!(n.backward[0], 1);
    assert_eq!(n.backward_shift[0], 1);
    assert_eq!(n.forward_shift[0], 0);
    let m = neighbor_ranks([1, 0, 0], decomp, [false, false, false]);
    assert_eq!(m.forward[0], -1);
    assert_eq!(m.backward[0], 0);
}

#[test]
fn single_process_comm_rank_and_size() {
    let comm = SingleProcessComm::new();
    assert_eq!(comm.rank(), 0);
    assert_eq!(comm.size(), 1);
}

#[test]
fn single_process_comm_set_grid() {
    let mut comm = SingleProcessComm::new();
    let decomp = [1, 1, 1];
    let pos = [0, 0, 0];
    comm.set_processor_grid(decomp, pos);
    assert_eq!(comm.processor_decomposition(), decomp);
    assert_eq!(comm.processor_position(), pos);
}

#[test]
fn single_process_comm_keeps_the_grid_it_is_given() {
    let mut comm = SingleProcessComm::default();
    assert_eq!(comm.processor_decomposition(), [1, 1, 1]);
    comm.set_processor_grid([2, 3, 1], [1, 2, 0]);
    assert_eq!(comm.processor_decomposition(), [2, 3, 1]);
    assert_eq!(comm.processor_position(), [1, 2, 0]);
}
