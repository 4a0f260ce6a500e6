use sim::broadcast::{BChannel, Channel};
use sim::processor::{
    get_submatrices, get_submatrices_dim, get_submatrices_dim_along_axis, get_matrix_slices,
    SubmatrixDim,
};
use sim::processor::probe::{max_debug_time, CoreDebug, ThreadTimeProbe, ThreadTimeProber};
use sim::processor::taurus::{TaurusNetworkBuilder, TaurusOption, TimeTaurusNetworkBuilder};

#[test]
fn test_correctly_receive_serial() {
    let mut bchannel: BChannel<i32> = BChannel::new(2);
    bchannel.send(0);
    assert_eq!(bchannel.recv(0), 0);
    assert_eq!(bchannel.recv(1), 0);
}

#[test]
fn test_inorder_serial() {
    let mut bchannel: BChannel<i32> = BChannel::new(2);
    bchannel.send(0);
    bchannel.send(1);
    assert_eq!(bchannel.recv(0), bchannel.recv(1));
    assert_eq!(bchannel.recv(0), bchannel.recv(1));
}

#[test]
fn broadcast_fifo_two_senders_agree() {
    // Two senders on one row group; every receiver sees the first sender's
    // values in order and all receivers agree on the total order.
    let mut group: BChannel<i32> = BChannel::new(3);
    group.send(10);
    group.send(11);
    group.send(20);
    group.send(21);
    let seen0 = vec![group.recv(0), group.recv(0), group.recv(0), group.recv(0)];
    let seen1 = vec![group.recv(1), group.recv(1), group.recv(1), group.recv(1)];
    let seen2 = vec![group.recv(2), group.recv(2), group.recv(2), group.recv(2)];
    assert_eq!(seen0, seen1);
    assert_eq!(seen1, seen2);
    let pos = |v: i32, s: &Vec<i32>| s.iter().position(|x| *x == v).unwrap();
    assert!(pos(10, &seen0) < pos(11, &seen0));
    assert!(pos(20, &seen0) < pos(21, &seen0));
}

#[test]
fn channel_is_fifo() {
    let mut ch: Channel<i32> = Channel::new();
    ch.send(1);
    ch.send(2);
    ch.send(3);
    assert_eq!(ch.recv(), 1);
    assert_eq!(ch.recv(), 2);
    assert_eq!(ch.get_sent(), 3);
    assert_eq!(ch.recv(), 3);
}

#[test]
fn general_correct_connection() {
    let builder = TaurusNetworkBuilder;
    let mut net = builder.build::<i32>(2, 2);
    net.send(0, 0, &TaurusOption::UP, 1);
    assert_eq!(net.recv(1, 0, &TaurusOption::DOWN), 1);
    net.send(0, 0, &TaurusOption::RIGHT, 2);
    assert_eq!(net.recv(0, 1, &TaurusOption::LEFT), 2);
    net.send(0, 0, &TaurusOption::DOWN, 3);
    assert_eq!(net.recv(1, 0, &TaurusOption::UP), 3);
    net.send(0, 0, &TaurusOption::LEFT, 4);
    assert_eq!(net.recv(0, 1, &TaurusOption::RIGHT), 4);
    net.send(1, 1, &TaurusOption::UP, 1);
    assert_eq!(net.recv(0, 1, &TaurusOption::DOWN), 1);
    net.send(1, 1, &TaurusOption::RIGHT, 2);
    assert_eq!(net.recv(1, 0, &TaurusOption::LEFT), 2);
    net.send(1, 1, &TaurusOption::DOWN, 3);
    assert_eq!(net.recv(0, 1, &TaurusOption::UP), 3);
    net.send(1, 1, &TaurusOption::LEFT, 4);
    assert_eq!(net.recv(1, 0, &TaurusOption::RIGHT), 4);
}

#[test]
fn general_correct_broadcast() {
    let builder = TaurusNetworkBuilder;
    let mut net = builder.build::<i32>(2, 2);
    net.send(0, 0, &TaurusOption::ROW, 0);
    assert_eq!(net.recv(0, 0, &TaurusOption::ROW), 0);
    assert_eq!(net.recv(0, 1, &TaurusOption::ROW), 0);
    net.send(1, 1, &TaurusOption::ROW, 1);
    assert_eq!(net.recv(1, 0, &TaurusOption::ROW), 1);
    assert_eq!(net.recv(1, 1, &TaurusOption::ROW), 1);
    net.send(1, 0, &TaurusOption::COL, 2);
    assert_eq!(net.recv(0, 0, &TaurusOption::COL), 2);
    assert_eq!(net.recv(1, 0, &TaurusOption::COL), 2);
    net.send(0, 1, &TaurusOption::COL, 3);
    assert_eq!(net.recv(0, 1, &TaurusOption::COL), 3);
    assert_eq!(net.recv(1, 1, &TaurusOption::COL), 3);
}

#[test]
fn get_submatrices_dim_along_axis_more_processors() {
    let submatrices_dims = get_submatrices_dim_along_axis(6, 4);
    assert_eq!(submatrices_dims, vec![1, 1, 1, 1, 0, 0]);
}

#[test]
fn get_submatrices_dim_along_axis_equal_size() {
    let submatrices_dims = get_submatrices_dim_along_axis(4, 4);
    assert_eq!(submatrices_dims, vec![1, 1, 1, 1]);
}

#[test]
fn get_submatrices_dim_along_axis_less_processors() {
    let submatrices_dims = get_submatrices_dim_along_axis(6, 17);
    assert_eq!(submatrices_dims, vec![3, 3, 3, 3, 3, 2]);
}

#[test]
fn get_submatrices_dim_along_axis_less_processors_divisible() {
    let submatrices_dims = get_submatrices_dim_along_axis(6, 18);
    assert_eq!(submatrices_dims, vec![3, 3, 3, 3, 3, 3]);
}

#[test]
fn get_submatrices_dim_along_axis_wider_than_four_processors() {
    let submatrices_dims = get_submatrices_dim_along_axis(4, 17);
    assert_eq!(submatrices_dims, vec![5, 4, 4, 4]);
}

#[test]
fn get_submatrices_dim_square_equal() {
    let submatrices_dims = get_submatrices_dim(2, 2, 2, 2);
    assert_eq!(
        submatrices_dims[0],
        SubmatrixDim { start_row: 0, start_col: 0, width: 1, height: 1 }
    );
    assert_eq!(
        submatrices_dims[1],
        SubmatrixDim { start_row: 0, start_col: 1, width: 1, height: 1 }
    );
    assert_eq!(
        submatrices_dims[2],
        SubmatrixDim { start_row: 1, start_col: 0, width: 1, height: 1 }
    );
    assert_eq!(
        submatrices_dims[3],
        SubmatrixDim { start_row: 1, start_col: 1, width: 1, height: 1 }
    );
}

#[test]
fn get_submatrices_dim_square_diff() {
    let submatrices_dims = get_submatrices_dim(2, 2, 3, 3);
    assert_eq!(
        submatrices_dims[0],
        SubmatrixDim { start_row: 0, start_col: 0, width: 2, height: 2 }
    );
    assert_eq!(
        submatrices_dims[1],
        SubmatrixDim { start_row: 0, start_col: 2, width: 1, height: 2 }
    );
    assert_eq!(
        submatrices_dims[2],
        SubmatrixDim { start_row: 2, start_col: 0, width: 2, height: 1 }
    );
    assert_eq!(
        submatrices_dims[3],
        SubmatrixDim { start_row: 2, start_col: 2, width: 1, height: 1 }
    );
}

#[test]
fn get_matrix_slices_equal_dim() {
    let m: Vec<Vec<i32>> = vec![
        vec![1, 2, 3, 4],
        vec![5, 6, 7, 8],
        vec![9, 10, 11, 12],
        vec![13, 14, 15, 16],
    ];
    let dims = vec![
        SubmatrixDim { start_row: 0, start_col: 0, width: 2, height: 2 },
        SubmatrixDim { start_row: 0, start_col: 2, width: 2, height: 2 },
        SubmatrixDim { start_row: 2, start_col: 0, width: 2, height: 2 },
        SubmatrixDim { start_row: 2, start_col: 2, width: 2, height: 2 },
    ];
    let submatrices = get_matrix_slices(&m, &dims);
    assert_eq!(
        submatrices,
        vec![
            vec![vec![1, 2], vec![5, 6]],
            vec![vec![3, 4], vec![7, 8]],
            vec![vec![9, 10], vec![13, 14]],
            vec![vec![11, 12], vec![15, 16]],
        ]
    );
}

#[test]
fn get_matrix_slices_diff_dim() {
    let m: Vec<Vec<i32>> = vec![
        vec![1, 2, 3, 4],
        vec![5, 6, 7, 8],
        vec![9, 10, 11, 12],
        vec![13, 14, 15, 16],
    ];
    let dims = vec![
        SubmatrixDim { start_row: 0, start_col: 0, width: 3, height: 3 },
        SubmatrixDim { start_row: 0, start_col: 3, width: 1, height: 3 },
        SubmatrixDim { start_row: 3, start_col: 0, width: 3, height: 1 },
        SubmatrixDim { start_row: 3, start_col: 3, width: 1, height: 1 },
    ];
    let submatrices = get_matrix_slices(&m, &dims);
    assert_eq!(
        submatrices,
        vec![
            vec![vec![1, 2, 3], vec![5, 6, 7], vec![9, 10, 11]],
            vec![vec![4], vec![8], vec![12]],
            vec![vec![13, 14, 15]],
            vec![vec![16]],
        ]
    );
}

#[test]
fn get_submatrices_square_equal() {
    let m: Vec<Vec<i32>> = vec![vec![1, 2], vec![3, 4]];
    let submatrices = get_submatrices(2, 2, &m);
    assert_eq!(submatrices, vec![vec![vec![1]], vec![vec![2]], vec![vec![3]], vec![vec![4]]]);
}

#[test]
fn get_submatrices_square_diff() {
    let m: Vec<Vec<i32>> = vec![vec![1, 2, 3], vec![4, 5, 6], vec![7, 8, 9]];
    let submatrices = get_submatrices(2, 2, &m);
    assert_eq!(
        submatrices,
        vec![
            vec![vec![1, 2], vec![4, 5]],
            vec![vec![3], vec![6]],
            vec![vec![7, 8]],
            vec![vec![9]],
        ]
    );
}

#[test]
fn probe_clock_advances_on_send_cost_and_arrival() {
    // A worker that consumed 500 ms of CPU and sends 4 bytes at 2 bytes per
    // nanosecond pays 2 ns of transmission; a message that arrives at
    // virtual time 450 ms lifts an idle receiver's clock to 450 ms.
    let mut sender = ThreadTimeProbe::new(0, 0);
    sender.add_used(500_000_000);
    assert_eq!(sender.get_curr_elapsed(), 500_000_000);
    sender.increment_time(2);
    assert_eq!(sender.get_curr_elapsed(), 500_000_002);
    let mut receiver = ThreadTimeProbe::new(0, 1);
    receiver.update_elapsed(450_000_000);
    assert_eq!(receiver.get_curr_elapsed(), 450_000_000);
    receiver.update_elapsed(100);
    assert_eq!(receiver.get_curr_elapsed(), 450_000_000);
    let frozen = receiver.end();
    assert_eq!(frozen.stat, 450_000_000);
    assert_eq!(frozen.col, 1);
}

#[test]
fn probe_latency_is_added_to_arrival_time() {
    // Latency 200 ms: a sender with 2 s of attributed CPU stamps messages
    // with arrival time 2.2 s and its own clock stays at 2 s.
    let cost = TimeTaurusNetworkBuilder::new(200_000_000, 1, 0);
    let mut prober = ThreadTimeProber::new(1, 2, cost, true);
    prober.begin_work();
    prober.end_work(0);
    let arrival = prober.charge_send(0, 0, false, 0);
    let stats = prober.extract_stats();
    assert_eq!(arrival, stats[0].stat + 200_000_000);
}

#[test]
fn probe_transmission_cost_follows_bandwidth_and_startup() {
    let cost = TimeTaurusNetworkBuilder::new(0, 2, 5);
    let prober = ThreadTimeProber::new(1, 1, cost, true);
    assert_eq!(prober.transmission_time(4, false, 0), 2_000_000_000);
    assert_eq!(prober.transmission_time(4, true, 3), 2_000_000_015);
}

#[test]
fn max_debug_time_picks_the_slowest_worker() {
    let debugs = vec![
        CoreDebug::new(0, 0, 10),
        CoreDebug::new(0, 1, 42),
        CoreDebug::new(1, 0, 7),
    ];
    assert_eq!(max_debug_time(&debugs), Some(42));
    let empty: Vec<CoreDebug> = Vec::new();
    assert_eq!(max_debug_time(&empty), None);
}
