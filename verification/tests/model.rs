use gmt_fem::fem::FEM;
use gmt_fem::io::{GroupIo, IOData, Properties, IO};
use gmt_fem::matrix::Mat;
use gmt_fem::switch::Switch;

fn dof(idx: u32) -> IO {
    let mut d = IOData::default();
    d.indices = vec![idx];
    IO::On(d)
}

fn dof_off(idx: u32) -> IO {
    dof(idx).switch_off()
}

fn labeled_dof(idx: u32, label: &str) -> IO {
    let mut d = IOData::default();
    d.indices = vec![idx];
    d.properties.cs_label = Some(String::from(label));
    IO::On(d)
}

fn group(name: &str, io: Vec<IO>) -> Option<GroupIo> {
    Some(GroupIo { name: String::from(name), io })
}

/// A model with two input groups A (indices 1, 2) and B (3, 4, 5), one
/// output group Y (1..=4), 2 modes, and distinct matrix entries.
fn small_fem() -> FEM {
    let n_modes = 2usize;
    let n_in = 5usize;
    let n_out = 4usize;
    let inputs_to_modal_forces: Vec<u64> =
        (0..n_modes * n_in).map(|k| (k as f64 + 1.0).to_bits()).collect();
    let modal_disp_to_outputs: Vec<u64> =
        (0..n_out * n_modes).map(|k| (100.0 + k as f64).to_bits()).collect();
    FEM {
        model_description: String::from("two-mode test model"),
        inputs: vec![
            group("A", vec![dof(1), dof(2)]),
            group("B", vec![dof(3), dof(4), dof(5)]),
        ],
        outputs: vec![group("Y", vec![dof(1), dof(2), dof(3), dof(4)])],
        eigen_frequencies: vec![1.0f64.to_bits(), 10.0f64.to_bits()],
        inputs_to_modal_forces,
        modal_disp_to_outputs,
        proportional_damping_vec: vec![0.01f64.to_bits(), 0.02f64.to_bits()],
        static_gain: None,
        n_io: (5, 4),
    }
}

#[test]
fn io_switching_keeps_the_payload() {
    let d = dof(7);
    let off = d.clone().switch_off();
    assert!(!off.is_on());
    let on = off.clone().switch_on();
    assert!(on.is_on());
    assert_eq!(on.into_data().indices, vec![7]);
    assert_eq!(off.into_data().indices, vec![7]);
}

#[test]
fn switch_on_by_consults_the_predicate() {
    let picked = dof_off(3).switch_on_by(|d: &IOData| d.indices[0] == 3);
    assert!(picked.is_on());
    let left = dof_off(3).switch_on_by(|d: &IOData| d.indices[0] == 4);
    assert!(!left.is_on());
    let kept = dof(3).switch_on_by(|_d: &IOData| false);
    assert!(kept.is_on());
}

#[test]
fn get_by_reads_enabled_only() {
    let sel = |d: &IOData| d.properties.cs_label.clone();
    assert_eq!(labeled_dof(1, "M1").get_by(sel), Some(String::from("M1")));
    assert_eq!(labeled_dof(1, "M1").switch_off().get_by(sel), None);
}

#[test]
fn group_len_counts_enabled_dofs() {
    let g = GroupIo {
        name: String::from("G"),
        io: vec![dof(1), dof_off(2), dof(3)],
    };
    assert_eq!(g.len(), 2);
    assert_eq!(g.on_indices(), vec![1, 3]);
}

#[test]
fn totals_sum_enabled_dofs_over_groups() {
    let mut fem = small_fem();
    assert_eq!(fem.n_modes(), 2);
    assert_eq!(fem.n_inputs(), 5);
    assert_eq!(fem.n_outputs(), 4);
    fem.switch_inputs(Switch::Off, Some(&[1]));
    assert_eq!(fem.n_inputs(), 2);
    fem.switch_inputs(Switch::On, None);
    assert_eq!(fem.n_inputs(), 5);
}

#[test]
fn keep_inputs_drops_the_others() {
    let mut fem = small_fem();
    fem.keep_inputs(&[1]);
    assert!(fem.inputs[0].is_none());
    assert!(fem.inputs[1].is_some());
    assert_eq!(fem.n_inputs(), 3);
}

#[test]
fn keep_inputs_by_reselects_dofs() {
    let mut fem = small_fem();
    fem.keep_inputs_by(&[1], &|d: &IOData| d.indices[0] % 2 == 1);
    assert!(fem.inputs[0].is_none());
    let g = fem.inputs[1].as_ref().unwrap();
    assert_eq!(g.on_indices(), vec![3, 5]);
}

#[test]
fn filter_outputs_by_reselects_dofs_in_place() {
    let mut fem = small_fem();
    fem.filter_outputs_by(&[0], &|d: &IOData| d.indices[0] <= 2);
    let g = fem.outputs[0].as_ref().unwrap();
    assert_eq!(g.on_indices(), vec![1, 2]);
    assert_eq!(g.io.len(), 4);
}

#[test]
fn switch_input_by_name_flips_one_group() {
    let mut fem = small_fem();
    assert!(fem.switch_input(&String::from("A"), Switch::Off));
    assert_eq!(fem.n_inputs(), 3);
    assert!(!fem.switch_input(&String::from("Z"), Switch::Off));
}

#[test]
fn switch_by_name_reports_unknown_groups() {
    let mut fem = small_fem();
    let names = vec![String::from("A"), String::from("nowhere")];
    let err = fem.switch_inputs_by_name(&names, Switch::Off).unwrap_err();
    assert_eq!(err.message(), "failed to convert nowhere");
    // The names before the failing one were handled: group A is off.
    assert_eq!(fem.n_inputs(), 3);
    let ok = fem.switch_outputs_by_name(&vec![String::from("Y")], Switch::On);
    assert!(ok.is_ok());
    assert_eq!(fem.n_outputs(), 4);
}

#[test]
fn switch_by_name_flips_the_listed_groups() {
    let mut fem = small_fem();
    fem.switch_inputs_by_name(&vec![String::from("A"), String::from("B")], Switch::Off)
        .unwrap();
    assert_eq!(fem.n_inputs(), 0);
    fem.switch_inputs_by_name(&vec![String::from("B")], Switch::On).unwrap();
    assert_eq!(fem.n_inputs(), 3);
    assert_eq!(fem.inputs[1].as_ref().unwrap().on_indices(), vec![3, 4, 5]);
    assert_eq!(fem.inputs[0].as_ref().unwrap().len(), 0);
}

#[test]
fn input2modes_gathers_enabled_columns() {
    let mut fem = small_fem();
    fem.switch_inputs(Switch::Off, Some(&[0]));
    // Group B spans global indices 3..=5; row k of the table is
    // [5k+1 .. 5k+5], so the gather keeps columns 3, 4, 5 of each row.
    let v = fem.input2modes(1).unwrap();
    let got: Vec<f64> = v.iter().map(|w| f64::from_bits(*w)).collect();
    assert_eq!(got, vec![3.0, 4.0, 5.0, 8.0, 9.0, 10.0]);
    // A group whose degrees of freedom are all disabled yields nothing,
    // and so does a dropped group.
    assert!(fem.input2modes(0).is_none());
    fem.keep_inputs(&[1]);
    assert!(fem.input2modes(0).is_none());
    assert!(fem.in2modes(&String::from("B")).is_some());
}

#[test]
fn inputs2modes_concatenates_group_gathers() {
    let fem = small_fem();
    let v = fem.inputs2modes();
    let got: Vec<f64> = v.iter().map(|w| f64::from_bits(*w)).collect();
    assert_eq!(got, (1..=10).map(|k| k as f64).collect::<Vec<f64>>());
}

#[test]
fn modes2output_gathers_enabled_rows() {
    let mut fem = small_fem();
    fem.filter_outputs_by(&[0], &|d: &IOData| d.indices[0] == 2 || d.indices[0] == 4);
    let v = fem.modes2output(0).unwrap();
    let got: Vec<f64> = v.iter().map(|w| f64::from_bits(*w)).collect();
    // Rows 2 and 4 of the 4-by-2 table [[100,101],[102,103],[104,105],[106,107]].
    assert_eq!(got, vec![102.0, 103.0, 106.0, 107.0]);
}

#[test]
fn trims_pick_columns_and_rows() {
    let fem = small_fem();
    // A 4-by-5 matrix with entry (i, j) = 10 i + j.
    let data: Vec<u64> = (0..4)
        .flat_map(|i| (0..5).map(move |j| ((10 * i + j) as f64).to_bits()))
        .collect();
    let m = Mat::new(4, 5, data);
    let cols = fem.trim2in(&String::from("B"), &m).unwrap();
    assert_eq!(cols.rows(), 4);
    assert_eq!(cols.cols(), 3);
    assert_eq!(f64::from_bits(cols.entry(1, 0)), 12.0);
    let data2: Vec<u64> = (0..4)
        .flat_map(|i| (0..3).map(move |j| ((10 * i + j) as f64).to_bits()))
        .collect();
    let m2 = Mat::new(4, 3, data2);
    let rows = fem.trim2out(&String::from("Y"), &m2).unwrap();
    assert_eq!(rows.rows(), 4);
    assert_eq!(f64::from_bits(rows.entry(2, 1)), 21.0);
}

#[test]
fn reduced_static_gain_picks_enabled_blocks() {
    let mut fem = small_fem();
    // Full 4-by-5 gain with entry (o, i) = 10 o + i.
    fem.static_gain = Some(
        (0..4)
            .flat_map(|o| (0..5).map(move |i| ((10 * o + i) as f64).to_bits()))
            .collect(),
    );
    fem.switch_inputs(Switch::Off, Some(&[0]));
    fem.filter_outputs_by(&[0], &|d: &IOData| d.indices[0] >= 3);
    let g = fem.reduced_static_gain().unwrap();
    assert_eq!(g.rows(), 2);
    assert_eq!(g.cols(), 3);
    // Enabled inputs are global 3, 4, 5 (columns 2..=4); outputs 3, 4
    // (rows 2..=3).
    assert_eq!(f64::from_bits(g.entry(0, 0)), 22.0);
    assert_eq!(f64::from_bits(g.entry(1, 2)), 34.0);
}

#[test]
fn positions_find_the_first_named_group() {
    let fem = small_fem();
    assert_eq!(fem.in_position(&String::from("B")), Some(1));
    assert_eq!(fem.in_position(&String::from("Y")), None);
    assert_eq!(fem.out_position(&String::from("Y")), Some(0));
}

#[test]
fn properties_metadata_survives_switching() {
    let g = labeled_dof(1, "S7").switch_off().switch_on();
    let d = g.into_data();
    assert_eq!(d.properties.cs_label, Some(String::from("S7")));
    let p = Properties::default();
    assert!(p.location.is_none());
}

#[test]
fn multi_index_dofs_flatten_in_order() {
    let mut d = IOData::default();
    d.indices = vec![2, 4];
    let g = GroupIo {
        name: String::from("G"),
        io: vec![IO::On(d), dof_off(1), dof(5)],
    };
    // `len` counts enabled entries; the gather flattens their indices.
    assert_eq!(g.len(), 2);
    assert_eq!(g.on_indices(), vec![2, 4, 5]);
}

#[test]
fn keep_outputs_by_reselects_dofs() {
    let mut fem = small_fem();
    fem.keep_outputs_by(&[0], &|d: &IOData| d.indices[0] == 4);
    let g = fem.outputs[0].as_ref().unwrap();
    assert_eq!(g.on_indices(), vec![4]);
    assert_eq!(fem.n_outputs(), 1);
}

#[test]
fn switch_outputs_flips_the_selected_groups() {
    let mut fem = small_fem();
    fem.switch_outputs(Switch::Off, None);
    assert_eq!(fem.n_outputs(), 0);
    fem.switch_outputs(Switch::On, Some(&[0]));
    assert_eq!(fem.n_outputs(), 4);
}

#[test]
fn matrix_entries_rows_and_columns_agree() {
    let data: Vec<u64> = (0..6).map(|k| (k as f64).to_bits()).collect();
    let mut m = Mat::new(2, 3, data);
    assert_eq!(f64::from_bits(m.entry(1, 2)), 5.0);
    let row: Vec<f64> = m.row(1).iter().map(|w| f64::from_bits(*w)).collect();
    assert_eq!(row, vec![3.0, 4.0, 5.0]);
    let col: Vec<f64> = m.column(1).iter().map(|w| f64::from_bits(*w)).collect();
    assert_eq!(col, vec![1.0, 4.0]);
    m.set_entry(0, 1, 9.0f64.to_bits());
    assert_eq!(f64::from_bits(m.entry(0, 1)), 9.0);
    m.zero_block(0, 1, 0, 2);
    assert_eq!(f64::from_bits(m.entry(0, 0)), 0.0);
    assert_eq!(f64::from_bits(m.entry(0, 1)), 0.0);
    assert_eq!(f64::from_bits(m.entry(0, 2)), 2.0);
    assert_eq!(f64::from_bits(m.entry(1, 0)), 3.0);
}

#[test]
fn remove_inputs_by_drops_failing_dofs() {
    let mut fem = small_fem();
    fem.remove_inputs_by(&[1], &|d: &IOData| d.indices[0] != 4);
    let g = fem.inputs[1].as_ref().unwrap();
    // The failing entry is removed outright, not just disabled.
    assert_eq!(g.io.len(), 2);
    assert_eq!(g.on_indices(), vec![3, 5]);
    // Unlisted groups are untouched.
    assert_eq!(fem.inputs[0].as_ref().unwrap().io.len(), 2);
}
