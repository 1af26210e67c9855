use gmt_fem::dss::DiscreteStateSpace;
use gmt_fem::error::StateSpaceError;
use gmt_fem::fem::FEM;
use gmt_fem::io::{GroupIo, IOData, IO};
use gmt_fem::matrix::Mat;
use gmt_fem::solver::{DiscreteModalSolver, Exponential};

fn dof(idx: u32) -> IO {
    let mut d = IOData::default();
    d.indices = vec![idx];
    IO::On(d)
}

fn group(name: &str, indices: &[u32]) -> Option<GroupIo> {
    Some(GroupIo {
        name: String::from(name),
        io: indices.iter().map(|i| dof(*i)).collect(),
    })
}

fn words(xs: &[f64]) -> Vec<u64> {
    xs.iter().map(|x| x.to_bits()).collect()
}

fn values(ws: &[u64]) -> Vec<f64> {
    ws.iter().map(|w| f64::from_bits(*w)).collect()
}

/// Input groups A (2 DOFs) and B (3 DOFs), output group Y (4 DOFs),
/// two modes at 1 Hz and 10 Hz.
fn routing_fem() -> FEM {
    let n_modes = 2usize;
    FEM {
        model_description: String::from("routing test model"),
        inputs: vec![group("A", &[1, 2]), group("B", &[3, 4, 5])],
        outputs: vec![group("Y", &[1, 2, 3, 4])],
        eigen_frequencies: words(&[1.0, 10.0]),
        inputs_to_modal_forces: (0..n_modes * 5)
            .map(|k| (k as f64 + 1.0).to_bits())
            .collect(),
        modal_disp_to_outputs: (0..4 * n_modes)
            .map(|k| (100.0 + k as f64).to_bits())
            .collect(),
        proportional_damping_vec: words(&[0.01, 0.02]),
        static_gain: None,
        n_io: (5, 4),
    }
}

fn routing_solver() -> DiscreteModalSolver {
    DiscreteStateSpace::from_fem(routing_fem())
        .sampling(1000.0f64.to_bits())
        .ins(String::from("A"))
        .ins(String::from("B"))
        .outs(String::from("Y"))
        .build()
        .unwrap()
}

#[test]
fn build_sizes_follow_the_selection() {
    let solver = routing_solver();
    assert_eq!(solver.u.len(), 5);
    assert_eq!(solver.y.len(), 4);
    assert_eq!(solver.psi_times_u.len(), 4);
    assert_eq!(solver.state_space.len(), 2);
    assert!(solver.u.iter().all(|w| *w == 0));
    assert!(solver.y.iter().all(|w| *w == 0));
    assert_eq!(solver.sampling_rate, 1000.0f64.to_bits());
    for m in &solver.state_space {
        assert_eq!(m.n_inputs(), 5);
        assert_eq!(m.n_outputs(), 4);
        assert_eq!(m.x, (0, 0));
        assert_eq!(m.phi, (0, 0, 0, 0));
    }
}

#[test]
fn group_routing_assigns_consecutive_ranges() {
    let mut solver = routing_solver();
    assert_eq!(
        (solver.ins[0].start, solver.ins[0].end, solver.ins[0].fem_type()),
        (0, 2, String::from("A"))
    );
    assert_eq!((solver.ins[1].start, solver.ins[1].end), (2, 5));
    assert_eq!((solver.outs[0].start, solver.outs[0].end), (0, 4));
    solver.set(&String::from("A"), &words(&[10.0, 20.0]));
    solver.set(&String::from("B"), &words(&[1.0, 2.0, 3.0]));
    assert_eq!(values(&solver.u), vec![10.0, 20.0, 1.0, 2.0, 3.0]);
    // A name outside the selection leaves the vector as it is.
    solver.set(&String::from("Z"), &words(&[7.0]));
    assert_eq!(values(&solver.u), vec![10.0, 20.0, 1.0, 2.0, 3.0]);
}

#[test]
fn get_returns_the_exact_output_slice() {
    let mut solver = routing_solver();
    solver.y = words(&[4.0, 3.0, 2.0, 1.0]);
    let y = solver.get(&String::from("Y")).unwrap();
    assert_eq!(values(&y), vec![4.0, 3.0, 2.0, 1.0]);
    assert!(solver.get(&String::from("A")).is_none());
}

#[test]
fn set_then_get_round_trips_bit_for_bit() {
    // One group on each side with the same width: the written slice comes
    // back unchanged, including awkward values such as negative zero.
    let fem = FEM {
        model_description: String::new(),
        inputs: vec![group("U", &[1, 2, 3])],
        outputs: vec![group("W", &[1, 2, 3])],
        eigen_frequencies: words(&[1.0]),
        inputs_to_modal_forces: words(&[1.0, 2.0, 3.0]),
        modal_disp_to_outputs: words(&[4.0, 5.0, 6.0]),
        proportional_damping_vec: words(&[0.05]),
        static_gain: None,
        n_io: (3, 3),
    };
    let mut solver = DiscreteStateSpace::from_fem(fem)
        .sampling(100.0f64.to_bits())
        .ins(String::from("U"))
        .outs(String::from("W"))
        .build()
        .unwrap();
    let v = vec![(-0.0f64).to_bits(), f64::MIN_POSITIVE.to_bits(), 3.5f64.to_bits()];
    solver.set(&String::from("U"), &v);
    assert_eq!(solver.u, v);
    solver.y = v.clone();
    assert_eq!(solver.get(&String::from("W")).unwrap(), v);
}

#[test]
fn mode_data_follows_the_gathered_matrices() {
    let solver = routing_solver();
    // Mode k's input row is row k of the gathered inputs-to-modes matrix.
    assert_eq!(values(&solver.state_space[0].b), vec![1.0, 2.0, 3.0, 4.0, 5.0]);
    assert_eq!(values(&solver.state_space[1].b), vec![6.0, 7.0, 8.0, 9.0, 10.0]);
    // Mode k's output column is column k of the gathered modes-to-outputs
    // matrix [[100,101],[102,103],[104,105],[106,107]].
    assert_eq!(values(&solver.state_space[0].c), vec![100.0, 102.0, 104.0, 106.0]);
    assert_eq!(values(&solver.state_space[1].c), vec![101.0, 103.0, 105.0, 107.0]);
    assert_eq!(solver.state_space[0].omega_hz, 1.0f64.to_bits());
    assert_eq!(solver.state_space[1].zeta, 0.02f64.to_bits());
}

#[test]
fn missing_sampling_is_a_configuration_error() {
    let err = DiscreteStateSpace::from_fem(routing_fem())
        .ins(String::from("A"))
        .outs(String::from("Y"))
        .build()
        .unwrap_err();
    assert_eq!(err.message(), "argument sampling is missing");
}

#[test]
fn missing_model_is_a_configuration_error() {
    let builder = DiscreteStateSpace {
        sampling: Some(1000.0f64.to_bits()),
        fem: None,
        zeta: None,
        eigen_frequencies: None,
        max_eigen_frequency: None,
        hankel_singular_values_threshold: None,
        n_io: None,
        ins: Vec::new(),
        outs: Vec::new(),
        outs_transform: Vec::new(),
    };
    let err = builder.build().unwrap_err();
    assert_eq!(err.message(), "argument FEM is missing");
}

#[test]
fn missing_group_error_names_the_group() {
    let err = DiscreteStateSpace::from_fem(routing_fem())
        .sampling(1000.0f64.to_bits())
        .ins(String::from("A"))
        .ins(String::from("missing_one"))
        .outs(String::from("Y"))
        .build()
        .unwrap_err();
    assert_eq!(err.message(), "argument missing_one is missing");
}

#[test]
fn empty_selection_is_a_builder_error() {
    let err = DiscreteStateSpace::from_fem(routing_fem())
        .sampling(1000.0f64.to_bits())
        .outs(String::from("Y"))
        .build()
        .unwrap_err();
    assert!(matches!(err, StateSpaceError::Matrix(_)));
    // A selected group whose degrees of freedom are all disabled is empty too.
    let mut fem = routing_fem();
    fem.switch_outputs(gmt_fem::switch::Switch::Off, None);
    let err2 = DiscreteStateSpace::from_fem(fem)
        .sampling(1000.0f64.to_bits())
        .ins(String::from("A"))
        .outs(String::from("Y"))
        .build()
        .unwrap_err();
    assert!(matches!(err2, StateSpaceError::Matrix(_)));
}

#[test]
fn frequency_truncation_counts_the_modes() {
    // 100 modes at 1..=100 Hz; a 50 Hz bound retains exactly 50 of them.
    let n = 100usize;
    let fem = FEM {
        model_description: String::new(),
        inputs: vec![group("U", &[1])],
        outputs: vec![group("W", &[1])],
        eigen_frequencies: (1..=n).map(|h| (h as f64).to_bits()).collect(),
        inputs_to_modal_forces: vec![1.0f64.to_bits(); n],
        modal_disp_to_outputs: vec![1.0f64.to_bits(); n],
        proportional_damping_vec: vec![0.01f64.to_bits(); n],
        static_gain: None,
        n_io: (1, 1),
    };
    let solver = DiscreteStateSpace::from_fem(fem)
        .sampling(1000.0f64.to_bits())
        .max_eigen_frequency(50.0f64.to_bits())
        .ins(String::from("U"))
        .outs(String::from("W"))
        .build()
        .unwrap();
    assert_eq!(solver.state_space.len(), 50);
    assert_eq!(solver.state_space[49].omega_hz, 50.0f64.to_bits());
}

#[test]
fn eigen_frequency_overrides_replace_entries() {
    let solver = DiscreteStateSpace::from_fem(routing_fem())
        .sampling(1000.0f64.to_bits())
        .eigen_frequencies(vec![(0, 0.0f64.to_bits())])
        .ins(String::from("A"))
        .outs(String::from("Y"))
        .build()
        .unwrap();
    assert_eq!(solver.state_space[0].omega_hz, 0.0f64.to_bits());
    assert_eq!(solver.state_space[1].omega_hz, 10.0f64.to_bits());
    let err = DiscreteStateSpace::from_fem(routing_fem())
        .sampling(1000.0f64.to_bits())
        .eigen_frequencies(vec![(9, 0.0f64.to_bits())])
        .ins(String::from("A"))
        .outs(String::from("Y"))
        .build()
        .unwrap_err();
    assert!(matches!(err, StateSpaceError::Matrix(_)));
}

#[test]
fn proportional_damping_overrides_every_mode() {
    let z = 0.02f64.to_bits();
    let solver = DiscreteStateSpace::from_fem(routing_fem())
        .sampling(1000.0f64.to_bits())
        .proportional_damping(z)
        .ins(String::from("A"))
        .outs(String::from("Y"))
        .build()
        .unwrap();
    assert!(solver.state_space.iter().all(|m| m.zeta == z));
}

#[test]
fn hankel_truncation_above_the_maximum_empties_the_bank() {
    let mut solver = DiscreteStateSpace::from_fem(routing_fem())
        .sampling(1000.0f64.to_bits())
        .truncate_hankel_singular_values(1.0e9f64.to_bits())
        .ins(String::from("A"))
        .outs(String::from("Y"))
        .build()
        .unwrap();
    assert_eq!(solver.state_space.len(), 2);
    let hsv = words(&[5.0, 7.5]);
    solver.retain_modes(&hsv);
    assert!(solver.state_space.is_empty());
}

#[test]
fn hankel_truncation_keeps_the_strictly_larger_modes() {
    let mut solver = DiscreteStateSpace::from_fem(routing_fem())
        .sampling(1000.0f64.to_bits())
        .truncate_hankel_singular_values(5.0f64.to_bits())
        .ins(String::from("A"))
        .outs(String::from("Y"))
        .build()
        .unwrap();
    let hsv = words(&[5.0, 7.5]);
    solver.retain_modes(&hsv);
    assert_eq!(solver.state_space.len(), 1);
    assert_eq!(solver.state_space[0].omega_hz, 10.0f64.to_bits());
    // Without a pending threshold the bank is left alone.
    let mut untouched = routing_solver();
    untouched.retain_modes(&words(&[0.0, 0.0]));
    assert_eq!(untouched.state_space.len(), 2);
}

/// Drive/encoder groups around the azimuth axis plus one extra group on each
/// side, with a full static gain.
fn mount_fem() -> FEM {
    let n_modes = 1usize;
    let n_in = 3usize;
    let n_out = 3usize;
    FEM {
        model_description: String::new(),
        inputs: vec![
            group("OSS_AzDrive_Torque", &[1, 2]),
            group("F", &[3]),
        ],
        outputs: vec![
            group("OSS_AzEncoder_Angle", &[1]),
            group("D", &[2, 3]),
        ],
        eigen_frequencies: words(&[2.0]),
        inputs_to_modal_forces: (0..n_modes * n_in)
            .map(|k| (k as f64 + 1.0).to_bits())
            .collect(),
        modal_disp_to_outputs: (0..n_out * n_modes)
            .map(|k| (50.0 + k as f64).to_bits())
            .collect(),
        proportional_damping_vec: words(&[0.01]),
        static_gain: Some(
            (0..3)
                .flat_map(|o| (0..3).map(move |i| ((10 * o + i) as f64).to_bits()))
                .collect(),
        ),
        n_io: (3, 3),
    }
}

#[test]
fn static_gain_is_trimmed_to_the_selection() {
    let solver = DiscreteStateSpace::from_fem(mount_fem())
        .sampling(1000.0f64.to_bits())
        .use_static_gain_compensation((3, 3))
        .ins(String::from("OSS_AzDrive_Torque"))
        .ins(String::from("F"))
        .outs(String::from("OSS_AzEncoder_Angle"))
        .outs(String::from("D"))
        .build()
        .unwrap();
    let sg = solver.static_gain.as_ref().unwrap();
    assert_eq!((sg.rows(), sg.cols()), (3, 3));
    // The selection covers the whole model in order, so the trim is the
    // full gain with entry (o, i) = 10 o + i.
    for o in 0..3 {
        for i in 0..3 {
            assert_eq!(f64::from_bits(sg.entry(o, i)), (10 * o + i) as f64);
        }
    }
    assert!(solver.psi_dcg.is_none());
}

#[test]
fn missing_static_gain_is_a_configuration_error() {
    let err = DiscreteStateSpace::from_fem(routing_fem())
        .sampling(1000.0f64.to_bits())
        .use_static_gain_compensation((5, 4))
        .ins(String::from("A"))
        .outs(String::from("Y"))
        .build()
        .unwrap_err();
    assert_eq!(err.message(), "argument static gain is missing");
}

#[test]
fn dc_compensation_zeroes_the_drive_encoder_block() {
    let mut solver = DiscreteStateSpace::from_fem(mount_fem())
        .sampling(1000.0f64.to_bits())
        .use_static_gain_compensation((3, 3))
        .ins(String::from("OSS_AzDrive_Torque"))
        .ins(String::from("F"))
        .outs(String::from("OSS_AzEncoder_Angle"))
        .outs(String::from("D"))
        .build()
        .unwrap();
    // A 3-by-3 correction with every entry distinct and non-zero.
    let psi = Mat::new(
        3,
        3,
        (0..9).map(|k| (k as f64 + 1.0).to_bits()).collect(),
    );
    solver.set_dc_compensation(psi);
    let m = solver.psi_dcg.as_ref().unwrap();
    // The azimuth torque group covers u[0..2]; its encoder covers y[0..1]:
    // that block is zeroed, everything else is kept.
    assert_eq!(f64::from_bits(m.entry(0, 0)), 0.0);
    assert_eq!(f64::from_bits(m.entry(0, 1)), 0.0);
    assert_eq!(f64::from_bits(m.entry(0, 2)), 3.0);
    assert_eq!(f64::from_bits(m.entry(1, 0)), 4.0);
    assert_eq!(f64::from_bits(m.entry(2, 2)), 9.0);
}

#[test]
fn transformed_outputs_stand_in_for_the_raw_rows() {
    // The block has 2 rows over the model's single mode: the output group
    // contributes those rows and the ranges stretch accordingly.
    let block = Mat::new(2, 2, words(&[7.0, 8.0, 9.0, 11.0]));
    let solver = DiscreteStateSpace::from_fem(routing_fem())
        .sampling(1000.0f64.to_bits())
        .ins(String::from("A"))
        .outs_with(String::from("Y"), block)
        .build()
        .unwrap();
    assert_eq!(solver.y.len(), 2);
    assert_eq!(values(&solver.state_space[0].c), vec![7.0, 9.0]);
    assert_eq!(values(&solver.state_space[1].c), vec![8.0, 11.0]);
}

#[test]
fn from_modal_starts_at_rest() {
    let m = Exponential::from_modal(
        3.0f64.to_bits(),
        0.1f64.to_bits(),
        words(&[1.0]),
        words(&[2.0, 4.0]),
    );
    assert_eq!(m.tau, 0);
    assert_eq!(m.x, (0, 0));
    assert_eq!(m.gamma, (0, 0));
    assert_eq!(m.n_inputs(), 1);
    assert_eq!(m.n_outputs(), 2);
    assert_eq!(values(&m.y), vec![0.0, 0.0]);
}

#[test]
fn from_fem_starts_an_empty_configuration() {
    let b = DiscreteModalSolver::from_fem(routing_fem());
    assert!(b.sampling.is_none());
    assert!(b.fem.is_some());
    assert!(b.ins.is_empty());
}

#[test]
fn error_messages_read_naturally() {
    assert_eq!(
        StateSpaceError::SamplingFrequency.message(),
        "sampling frequency not set"
    );
    assert_eq!(
        StateSpaceError::Matrix(String::from("oops")).message(),
        "oops"
    );
    assert_eq!(
        gmt_fem::error::FemError::StaticGain.message(),
        "static gain not found"
    );
    assert_eq!(
        gmt_fem::error::FemError::Convert(String::from("X")).message(),
        "failed to convert X"
    );
}
