//! The finite-element model container: named groups of degrees of freedom on
//! the input and output side, the modal matrices, and query helpers that
//! slice them group by group.

use vstd::prelude::*;

verus! {

use crate::io::{GroupIo, IO, on_dofs, on_count};
use crate::matrix::Mat;

/// Sum of the degrees of freedom declared by the present groups.
pub open spec fn total_entries(groups: Seq<Option<GroupIo>>) -> nat
    decreases groups.len(),
{
    if groups.len() == 0 {
        0
    } else {
        (match groups[0] {
            Some(g) => g.io@.len(),
            None => 0,
        }) + total_entries(groups.skip(1))
    }
}

/// Sum of the enabled degrees of freedom of the present groups.
pub open spec fn total_on(groups: Seq<Option<GroupIo>>) -> nat
    decreases groups.len(),
{
    if groups.len() == 0 {
        0
    } else {
        (match groups[0] {
            Some(g) => on_count(g.io@),
            None => 0,
        }) + total_on(groups.skip(1))
    }
}

/// The 1-based global indices of every enabled degree of freedom, walking the
/// present groups in order.
pub open spec fn all_on_dofs(groups: Seq<Option<GroupIo>>) -> Seq<u32>
    decreases groups.len(),
{
    if groups.len() == 0 {
        Seq::empty()
    } else {
        (match groups[0] {
            Some(g) => on_dofs(g.io@),
            None => Seq::empty(),
        }) + all_on_dofs(groups.skip(1))
    }
}

/// Peeling one group off the end of the prefix appends its contribution.
pub proof fn lemma_total_on_snoc(groups: Seq<Option<GroupIo>>, i: int)
    requires
        0 <= i < groups.len(),
    ensures
        total_on(groups.take(i + 1)) == total_on(groups.take(i)) + (match groups[i] {
            Some(g) => on_count(g.io@),
            None => 0,
        }),
    decreases i,
{
    if i == 0 {
        assert(groups.take(1).skip(1) =~= Seq::<Option<GroupIo>>::empty());
        assert(groups.take(0) =~= Seq::<Option<GroupIo>>::empty());
    } else {
        lemma_total_on_snoc(groups.skip(1), i - 1);
        assert(groups.take(i + 1).skip(1) =~= groups.skip(1).take(i));
        assert(groups.take(i).skip(1) =~= groups.skip(1).take(i - 1));
        assert(groups.skip(1)[i - 1] == groups[i]);
    }
}

/// The same, for the declared count.
pub proof fn lemma_total_entries_snoc(groups: Seq<Option<GroupIo>>, i: int)
    requires
        0 <= i < groups.len(),
    ensures
        total_entries(groups.take(i + 1)) == total_entries(groups.take(i)) + (match groups[i] {
            Some(g) => g.io@.len(),
            None => 0,
        }),
    decreases i,
{
    if i == 0 {
        assert(groups.take(1).skip(1) =~= Seq::<Option<GroupIo>>::empty());
        assert(groups.take(0) =~= Seq::<Option<GroupIo>>::empty());
    } else {
        lemma_total_entries_snoc(groups.skip(1), i - 1);
        assert(groups.take(i + 1).skip(1) =~= groups.skip(1).take(i));
        assert(groups.take(i).skip(1) =~= groups.skip(1).take(i - 1));
        assert(groups.skip(1)[i - 1] == groups[i]);
    }
}

/// The same, for the flattened enabled indices.
pub proof fn lemma_all_on_dofs_snoc(groups: Seq<Option<GroupIo>>, i: int)
    requires
        0 <= i < groups.len(),
    ensures
        all_on_dofs(groups.take(i + 1)) == all_on_dofs(groups.take(i)) + (match groups[i] {
            Some(g) => on_dofs(g.io@),
            None => Seq::<u32>::empty(),
        }),
    decreases i,
{
    if i == 0 {
        assert(groups.take(1).skip(1) =~= Seq::<Option<GroupIo>>::empty());
        assert(groups.take(0) =~= Seq::<Option<GroupIo>>::empty());
        assert(all_on_dofs(groups.take(1)) =~= all_on_dofs(groups.take(0)) + (match groups[0] {
            Some(g) => on_dofs(g.io@),
            None => Seq::<u32>::empty(),
        }));
    } else {
        lemma_all_on_dofs_snoc(groups.skip(1), i - 1);
        assert(groups.take(i + 1).skip(1) =~= groups.skip(1).take(i));
        assert(groups.take(i).skip(1) =~= groups.skip(1).take(i - 1));
        assert(groups.skip(1)[i - 1] == groups[i]);
        assert(all_on_dofs(groups.take(i + 1)) =~= all_on_dofs(groups.take(i)) + (match groups[i] {
            Some(g) => on_dofs(g.io@),
            None => Seq::<u32>::empty(),
        }));
    }
}

/// No group enables more degrees of freedom than it declares.
pub proof fn lemma_on_count_le(ios: Seq<IO>)
    ensures
        on_count(ios) <= ios.len(),
    decreases ios.len(),
{
    if ios.len() > 0 {
        lemma_on_count_le(ios.skip(1));
    }
}

/// The enabled total never exceeds the declared total.
pub proof fn lemma_total_on_le(groups: Seq<Option<GroupIo>>)
    ensures
        total_on(groups) <= total_entries(groups),
    decreases groups.len(),
{
    if groups.len() > 0 {
        match groups[0] {
            Some(g) => lemma_on_count_le(g.io@),
            None => {},
        }
        lemma_total_on_le(groups.skip(1));
    }
}

/// The declared total of a prefix never exceeds the declared total.
pub proof fn lemma_total_entries_take_le(groups: Seq<Option<GroupIo>>, i: int)
    requires
        0 <= i <= groups.len(),
    ensures
        total_entries(groups.take(i)) <= total_entries(groups),
    decreases groups.len() - i,
{
    if i == groups.len() {
        assert(groups.take(i) =~= groups);
    } else {
        lemma_total_entries_snoc(groups, i);
        lemma_total_entries_take_le(groups, i + 1);
    }
}

/// All indices of every degree of freedom of the group, enabled or not, lie
/// within `[1, bound]`.
pub open spec fn group_dofs_bounded(g: GroupIo, bound: int) -> bool {
    forall|j: int, t: int|
        0 <= j < g.io@.len() && 0 <= t < g.io@[j].data_spec().indices@.len() ==> 1 <= #[trigger] g
            .io@[j].data_spec().indices@[t] <= bound
}

/// Every present group of the sequence has its indices within `[1, bound]`.
pub open spec fn groups_dofs_bounded(groups: Seq<Option<GroupIo>>, bound: int) -> bool {
    forall|k: int|
        0 <= k < groups.len() ==> match #[trigger] groups[k] {
            Some(g) => group_dofs_bounded(g, bound),
            None => true,
        }
}

/// The enabled indices of a bounded group lie within `[1, bound]`.
pub proof fn lemma_on_dofs_bounded(ios: Seq<IO>, bound: int)
    requires
        forall|j: int, t: int|
            0 <= j < ios.len() && 0 <= t < ios[j].data_spec().indices@.len() ==> 1 <= #[trigger] ios[j].data_spec().indices@[t] <= bound,
    ensures
        forall|t: int| 0 <= t < on_dofs(ios).len() ==> 1 <= #[trigger] on_dofs(ios)[t] <= bound,
    decreases ios.len(),
{
    if ios.len() > 0 {
        assert forall|j: int, t: int|
            0 <= j < ios.skip(1).len() && 0 <= t < ios.skip(1)[j].data_spec().indices@.len()
            implies 1 <= #[trigger] ios.skip(1)[j].data_spec().indices@[t] <= bound by {
            assert(ios.skip(1)[j] == ios[j + 1]);
        }
        lemma_on_dofs_bounded(ios.skip(1), bound);
        let head = if ios[0].is_on_spec() {
            ios[0].data_spec().indices@
        } else {
            Seq::<u32>::empty()
        };
        assert forall|t: int| 0 <= t < on_dofs(ios).len() implies 1 <= #[trigger] on_dofs(ios)[t]
            <= bound by {
            if t < head.len() {
                assert(on_dofs(ios)[t] == head[t]);
                assert(1 <= ios[0].data_spec().indices@[t] <= bound);
            } else {
                assert(on_dofs(ios)[t] == on_dofs(ios.skip(1))[t - head.len()]);
            }
        }
    }
}

/// The flattened enabled indices of bounded groups lie within `[1, bound]`.
pub proof fn lemma_all_on_dofs_bounded(groups: Seq<Option<GroupIo>>, bound: int)
    requires
        groups_dofs_bounded(groups, bound),
    ensures
        forall|t: int|
            0 <= t < all_on_dofs(groups).len() ==> 1 <= #[trigger] all_on_dofs(groups)[t] <= bound,
    decreases groups.len(),
{
    if groups.len() > 0 {
        match groups[0] {
            Some(g) => lemma_on_dofs_bounded(g.io@, bound),
            None => {},
        }
        assert forall|k: int|
            0 <= k < groups.skip(1).len() implies match #[trigger] groups.skip(1)[k] {
            Some(g) => group_dofs_bounded(g, bound),
            None => true,
        } by {
            assert(groups.skip(1)[k] == groups[k + 1]);
        }
        lemma_all_on_dofs_bounded(groups.skip(1), bound);
        let head = match groups[0] {
            Some(g) => on_dofs(g.io@),
            None => Seq::<u32>::empty(),
        };
        assert forall|t: int|
            0 <= t < all_on_dofs(groups).len() implies 1 <= #[trigger] all_on_dofs(groups)[t]
            <= bound by {
            if t < head.len() {
                assert(all_on_dofs(groups)[t] == head[t]);
            } else {
                assert(all_on_dofs(groups)[t] == all_on_dofs(groups.skip(1))[t - head.len()]);
            }
        }
    }
}

/// The finite-element model: groups of degrees of freedom on either side,
/// eigen frequencies in Hz, proportional damping, the two modal matrices and
/// an optional static gain, all scalars as IEEE-754 binary64 words.
#[derive(Debug)]
pub struct FEM {
    /// A description of the model.
    pub model_description: String,
    /// The input groups, in model order; a dropped group is `None`.
    pub inputs: Vec<Option<GroupIo>>,
    /// The output groups, in model order; a dropped group is `None`.
    pub outputs: Vec<Option<GroupIo>>,
    /// Eigen frequencies in Hz, one word per mode.
    pub eigen_frequencies: Vec<u64>,
    /// Inputs-to-modal-forces matrix, row-major `[n_modes, n_io.0]`.
    pub inputs_to_modal_forces: Vec<u64>,
    /// Modal-displacements-to-outputs matrix, row-major `[n_io.1, n_modes]`.
    pub modal_disp_to_outputs: Vec<u64>,
    /// Proportional damping coefficients, one word per mode.
    pub proportional_damping_vec: Vec<u64>,
    /// Optional static gain matrix, row-major `[n_io.1, n_io.0]`.
    pub static_gain: Option<Vec<u64>>,
    /// Total numbers of inputs and outputs before any reduction.
    pub n_io: (usize, usize),
}

impl FEM {
    pub open spec fn n_modes_spec(&self) -> nat {
        self.eigen_frequencies@.len()
    }

    /// Shape and indexing invariants: matrix storage matches the declared
    /// totals, and every declared index addresses a matrix column or row.
    pub open spec fn wf(&self) -> bool {
        &&& self.proportional_damping_vec@.len() == self.n_modes_spec()
        &&& forall|k: int|
            0 <= k < self.eigen_frequencies@.len() ==> crate::nonneg_finite_word(
                #[trigger] self.eigen_frequencies@[k],
            )
        &&& self.inputs_to_modal_forces@.len() == self.n_modes_spec() * self.n_io.0
        &&& self.modal_disp_to_outputs@.len() == self.n_io.1 * self.n_modes_spec()
        &&& match self.static_gain {
            Some(g) => g@.len() == self.n_io.1 * self.n_io.0,
            None => true,
        }
        &&& groups_dofs_bounded(self.inputs@, self.n_io.0 as int)
        &&& groups_dofs_bounded(self.outputs@, self.n_io.1 as int)
        &&& total_entries(self.inputs@) <= usize::MAX
        &&& total_entries(self.outputs@) <= usize::MAX
    }

    /// How many modes the model carries.
    pub fn n_modes(&self) -> (r: usize)
        ensures
            r == self.n_modes_spec(),
    {
        self.eigen_frequencies.len()
    }

    /// The number of enabled input degrees of freedom.
    pub fn n_inputs(&self) -> (r: usize)
        requires
            total_entries(self.inputs@) <= usize::MAX,
        ensures
            r == total_on(self.inputs@),
    {
        count_groups_on(&self.inputs)
    }

    /// The number of enabled output degrees of freedom.
    pub fn n_outputs(&self) -> (r: usize)
        requires
            total_entries(self.outputs@) <= usize::MAX,
        ensures
            r == total_on(self.outputs@),
    {
        count_groups_on(&self.outputs)
    }

    /// The position of the group with the given name among the input groups.
    pub fn in_position(&self, name: &String) -> (r: Option<usize>)
        ensures
            match r {
                Some(k) => first_group_at(self.inputs@, name@, k as int),
                None => !has_group(self.inputs@, name@),
            },
    {
        position_of(&self.inputs, name)
    }

    /// The position of the group with the given name among the output groups.
    pub fn out_position(&self, name: &String) -> (r: Option<usize>)
        ensures
            match r {
                Some(k) => first_group_at(self.outputs@, name@, k as int),
                None => !has_group(self.outputs@, name@),
            },
    {
        position_of(&self.outputs, name)
    }

    /// Keeps the listed input groups and drops every other one.
    pub fn keep_inputs(&mut self, id: &[usize])
        ensures
            final(self).inputs@.len() == old(self).inputs@.len(),
            forall|k: int|
                0 <= k < old(self).inputs@.len() ==> final(self).inputs@[k] == (if id@.contains(
                    k as usize,
                ) {
                    old(self).inputs@[k]
                } else {
                    None
                }),
            final(self).outputs == old(self).outputs,
            final(self).eigen_frequencies == old(self).eigen_frequencies,
            final(self).inputs_to_modal_forces == old(self).inputs_to_modal_forces,
            final(self).modal_disp_to_outputs == old(self).modal_disp_to_outputs,
            final(self).proportional_damping_vec == old(self).proportional_damping_vec,
            final(self).static_gain == old(self).static_gain,
            final(self).n_io == old(self).n_io,
            final(self).model_description == old(self).model_description,
    {
        keep_groups(&mut self.inputs, id);
    }

    /// Keeps the listed output groups and drops every other one.
    pub fn keep_outputs(&mut self, id: &[usize])
        ensures
            final(self).outputs@.len() == old(self).outputs@.len(),
            forall|k: int|
                0 <= k < old(self).outputs@.len() ==> final(self).outputs@[k] == (if id@.contains(
                    k as usize,
                ) {
                    old(self).outputs@[k]
                } else {
                    None
                }),
            final(self).inputs == old(self).inputs,
            final(self).eigen_frequencies == old(self).eigen_frequencies,
            final(self).inputs_to_modal_forces == old(self).inputs_to_modal_forces,
            final(self).modal_disp_to_outputs == old(self).modal_disp_to_outputs,
            final(self).proportional_damping_vec == old(self).proportional_damping_vec,
            final(self).static_gain == old(self).static_gain,
            final(self).n_io == old(self).n_io,
            final(self).model_description == old(self).model_description,
    {
        keep_groups(&mut self.outputs, id);
    }
}

impl FEM {
    /// The inputs-to-modes matrix restricted to the enabled input degrees of
    /// freedom of every group, row-major `[n_modes, total enabled]`.
    pub fn inputs2modes(&self) -> (r: Vec<u64>)
        requires
            self.wf(),
        ensures
            r@.len() == self.n_modes_spec() * all_on_dofs(self.inputs@).len(),
            forall|k: int, j: int|
                0 <= k < self.n_modes_spec() && 0 <= j < all_on_dofs(self.inputs@).len()
                    ==> #[trigger] r@[k * all_on_dofs(self.inputs@).len() + j]
                    == self.inputs_to_modal_forces@[k * self.n_io.0 + all_on_dofs(self.inputs@)[j]
                    - 1],
    {
        let dofs = all_on_indices(&self.inputs);
        proof {
            lemma_all_on_dofs_bounded(self.inputs@, self.n_io.0 as int);
        }
        gather_columns(&self.inputs_to_modal_forces, self.eigen_frequencies.len(), self.n_io.0, &dofs)
    }

    /// The inputs-to-modes matrix restricted to the enabled degrees of
    /// freedom of the input group at `id`; a dropped group, or one with no
    /// enabled degree of freedom, yields nothing.
    pub fn input2modes(&self, id: usize) -> (r: Option<Vec<u64>>)
        requires
            self.wf(),
            id < self.inputs@.len(),
        ensures
            r is Some <==> (self.inputs@[id as int] matches Some(g) && on_dofs(g.io@).len() > 0),
            match (r, self.inputs@[id as int]) {
                (Some(v), Some(g)) => {
                    &&& v@.len() == self.n_modes_spec() * on_dofs(g.io@).len()
                    &&& forall|k: int, j: int|
                        0 <= k < self.n_modes_spec() && 0 <= j < on_dofs(g.io@).len()
                            ==> #[trigger] v@[k * on_dofs(g.io@).len() + j]
                            == self.inputs_to_modal_forces@[k * self.n_io.0 + on_dofs(g.io@)[j] - 1]
                },
                (None, _) => true,
                _ => false,
            },
    {
        match &self.inputs[id] {
            Some(g) => {
                let dofs = g.on_indices();
                if dofs.is_empty() {
                    return None;
                }
                proof {
                    lemma_on_dofs_bounded(g.io@, self.n_io.0 as int);
                }
                Some(
                    gather_columns(
                        &self.inputs_to_modal_forces,
                        self.eigen_frequencies.len(),
                        self.n_io.0,
                        &dofs,
                    ),
                )
            },
            None => None,
        }
    }

    /// The modes-to-outputs matrix restricted to the enabled output degrees
    /// of freedom of every group, row-major `[total enabled, n_modes]`.
    pub fn modes2outputs(&self) -> (r: Vec<u64>)
        requires
            self.wf(),
        ensures
            r@.len() == all_on_dofs(self.outputs@).len() * self.n_modes_spec(),
            forall|t: int, k: int|
                0 <= t < all_on_dofs(self.outputs@).len() && 0 <= k < self.n_modes_spec()
                    ==> #[trigger] r@[t * self.n_modes_spec() + k]
                    == self.modal_disp_to_outputs@[(all_on_dofs(self.outputs@)[t] - 1)
                    * self.n_modes_spec() + k],
    {
        let dofs = all_on_indices(&self.outputs);
        proof {
            lemma_all_on_dofs_bounded(self.outputs@, self.n_io.1 as int);
        }
        gather_rows(&self.modal_disp_to_outputs, self.n_io.1, self.eigen_frequencies.len(), &dofs)
    }

    /// The modes-to-outputs matrix restricted to the enabled degrees of
    /// freedom of the output group at `id`; a dropped group, or one with no
    /// enabled degree of freedom, yields nothing.
    pub fn modes2output(&self, id: usize) -> (r: Option<Vec<u64>>)
        requires
            self.wf(),
            id < self.outputs@.len(),
        ensures
            r is Some <==> (self.outputs@[id as int] matches Some(g) && on_dofs(g.io@).len() > 0),
            match (r, self.outputs@[id as int]) {
                (Some(v), Some(g)) => {
                    &&& v@.len() == on_dofs(g.io@).len() * self.n_modes_spec()
                    &&& forall|t: int, k: int|
                        0 <= t < on_dofs(g.io@).len() && 0 <= k < self.n_modes_spec()
                            ==> #[trigger] v@[t * self.n_modes_spec() + k]
                            == self.modal_disp_to_outputs@[(on_dofs(g.io@)[t] - 1)
                            * self.n_modes_spec() + k]
                },
                (None, _) => true,
                _ => false,
            },
    {
        match &self.outputs[id] {
            Some(g) => {
                let dofs = g.on_indices();
                if dofs.is_empty() {
                    return None;
                }
                proof {
                    lemma_on_dofs_bounded(g.io@, self.n_io.1 as int);
                }
                Some(
                    gather_rows(
                        &self.modal_disp_to_outputs,
                        self.n_io.1,
                        self.eigen_frequencies.len(),
                        &dofs,
                    ),
                )
            },
            None => None,
        }
    }

    /// Restricts a matrix with one column per model input to the enabled
    /// degrees of freedom of the input group at `id`, picking columns.
    pub fn trim2input(&self, id: usize, matrix: &Mat) -> (r: Option<Mat>)
        requires
            self.wf(),
            id < self.inputs@.len(),
            matrix.wf(),
            matrix.cols_spec() == self.n_io.0,
        ensures
            r is Some <==> self.inputs@[id as int] is Some,
            match (r, self.inputs@[id as int]) {
                (Some(m), Some(g)) => {
                    &&& m.wf()
                    &&& m.rows_spec() == matrix.rows_spec()
                    &&& m.cols_spec() == on_dofs(g.io@).len()
                    &&& forall|i: int, j: int|
                        0 <= i < m.rows_spec() && 0 <= j < m.cols_spec() ==> #[trigger] m.at(i, j)
                            == matrix.at(i, on_dofs(g.io@)[j] - 1)
                },
                (None, None) => true,
                _ => false,
            },
    {
        match &self.inputs[id] {
            Some(g) => {
                let dofs = g.on_indices();
                proof {
                    lemma_on_dofs_bounded(g.io@, self.n_io.0 as int);
                }
                Some(pick_columns(matrix, &dofs))
            },
            None => None,
        }
    }

    /// Restricts a matrix with one row per model output to the enabled
    /// degrees of freedom of the output group at `id`, picking rows.
    pub fn trim2output(&self, id: usize, matrix: &Mat) -> (r: Option<Mat>)
        requires
            self.wf(),
            id < self.outputs@.len(),
            matrix.wf(),
            matrix.rows_spec() == self.n_io.1,
        ensures
            r is Some <==> self.outputs@[id as int] is Some,
            match (r, self.outputs@[id as int]) {
                (Some(m), Some(g)) => {
                    &&& m.wf()
                    &&& m.rows_spec() == on_dofs(g.io@).len()
                    &&& m.cols_spec() == matrix.cols_spec()
                    &&& forall|i: int, j: int|
                        0 <= i < m.rows_spec() && 0 <= j < m.cols_spec() ==> #[trigger] m.at(i, j)
                            == matrix.at(on_dofs(g.io@)[i] - 1, j)
                },
                (None, None) => true,
                _ => false,
            },
    {
        match &self.outputs[id] {
            Some(g) => {
                let dofs = g.on_indices();
                proof {
                    lemma_on_dofs_bounded(g.io@, self.n_io.1 as int);
                }
                Some(pick_rows(matrix, &dofs))
            },
            None => None,
        }
    }

    /// As `input2modes`, addressing the group by name.
    pub fn in2modes(&self, name: &String) -> (r: Option<Vec<u64>>)
        requires
            self.wf(),
        ensures
            forall|id: int|
                first_group_at(self.inputs@, name@, id) ==> (r is Some <==> (
                self.inputs@[id] matches Some(g) && on_dofs(g.io@).len() > 0)),
            !has_group(self.inputs@, name@) ==> r is None,
            forall|id: int|
                first_group_at(self.inputs@, name@, id) ==> match (r, #[trigger] self.inputs@[id]) {
                    (Some(v), Some(g)) => {
                        &&& v@.len() == self.n_modes_spec() * on_dofs(g.io@).len()
                        &&& forall|k: int, j: int|
                            0 <= k < self.n_modes_spec() && 0 <= j < on_dofs(g.io@).len()
                                ==> #[trigger] v@[k * on_dofs(g.io@).len() + j]
                                == self.inputs_to_modal_forces@[k * self.n_io.0 + on_dofs(g.io@)[j]
                                - 1]
                    },
                    (None, _) => true,
                    _ => false,
                },
    {
        match self.in_position(name) {
            Some(id) => self.input2modes(id),
            None => None,
        }
    }

    /// As `modes2output`, addressing the group by name.
    pub fn modes2out(&self, name: &String) -> (r: Option<Vec<u64>>)
        requires
            self.wf(),
        ensures
            forall|id: int|
                first_group_at(self.outputs@, name@, id) ==> (r is Some <==> (
                self.outputs@[id] matches Some(g) && on_dofs(g.io@).len() > 0)),
            !has_group(self.outputs@, name@) ==> r is None,
            forall|id: int|
                first_group_at(self.outputs@, name@, id) ==> match (
                    r,
                    #[trigger] self.outputs@[id],
                ) {
                    (Some(v), Some(g)) => {
                        &&& v@.len() == on_dofs(g.io@).len() * self.n_modes_spec()
                        &&& forall|t: int, k: int|
                            0 <= t < on_dofs(g.io@).len() && 0 <= k < self.n_modes_spec()
                                ==> #[trigger] v@[t * self.n_modes_spec() + k]
                                == self.modal_disp_to_outputs@[(on_dofs(g.io@)[t] - 1)
                                * self.n_modes_spec() + k]
                    },
                    (None, _) => true,
                    _ => false,
                },
    {
        match self.out_position(name) {
            Some(id) => self.modes2output(id),
            None => None,
        }
    }

    /// As `trim2input`, addressing the group by name.
    pub fn trim2in(&self, name: &String, matrix: &Mat) -> (r: Option<Mat>)
        requires
            self.wf(),
            matrix.wf(),
            matrix.cols_spec() == self.n_io.0,
        ensures
            r is Some <==> has_group(self.inputs@, name@),
            forall|id: int|
                first_group_at(self.inputs@, name@, id) ==> match (r, #[trigger] self.inputs@[id]) {
                    (Some(m), Some(g)) => {
                        &&& m.wf()
                        &&& m.rows_spec() == matrix.rows_spec()
                        &&& m.cols_spec() == on_dofs(g.io@).len()
                        &&& forall|i: int, j: int|
                            0 <= i < m.rows_spec() && 0 <= j < m.cols_spec() ==> #[trigger] m.at(
                                i,
                                j,
                            ) == matrix.at(i, on_dofs(g.io@)[j] - 1)
                    },
                    _ => false,
                },
    {
        match self.in_position(name) {
            Some(id) => self.trim2input(id, matrix),
            None => None,
        }
    }

    /// As `trim2output`, addressing the group by name.
    pub fn trim2out(&self, name: &String, matrix: &Mat) -> (r: Option<Mat>)
        requires
            self.wf(),
            matrix.wf(),
            matrix.rows_spec() == self.n_io.1,
        ensures
            r is Some <==> has_group(self.outputs@, name@),
            forall|id: int|
                first_group_at(self.outputs@, name@, id) ==> match (
                    r,
                    #[trigger] self.outputs@[id],
                ) {
                    (Some(m), Some(g)) => {
                        &&& m.wf()
                        &&& m.rows_spec() == on_dofs(g.io@).len()
                        &&& m.cols_spec() == matrix.cols_spec()
                        &&& forall|i: int, j: int|
                            0 <= i < m.rows_spec() && 0 <= j < m.cols_spec() ==> #[trigger] m.at(
                                i,
                                j,
                            ) == matrix.at(on_dofs(g.io@)[i] - 1, j)
                    },
                    _ => false,
                },
    {
        match self.out_position(name) {
            Some(id) => self.trim2output(id, matrix),
            None => None,
        }
    }

    /// The static gain matrix restricted to the enabled input and output
    /// degrees of freedom, or nothing when the model carries none.
    pub fn reduced_static_gain(&self) -> (r: Option<Mat>)
        requires
            self.wf(),
        ensures
            r is Some <==> self.static_gain is Some,
            match (r, &self.static_gain) {
                (Some(m), Some(gain)) => {
                    &&& m.wf()
                    &&& m.rows_spec() == all_on_dofs(self.outputs@).len()
                    &&& m.cols_spec() == all_on_dofs(self.inputs@).len()
                    &&& forall|o: int, i: int|
                        0 <= o < m.rows_spec() && 0 <= i < m.cols_spec() ==> #[trigger] m.at(o, i)
                            == gain@[(all_on_dofs(self.outputs@)[o] - 1) * self.n_io.0 + all_on_dofs(
                            self.inputs@,
                        )[i] - 1]
                },
                (None, None) => true,
                _ => false,
            },
    {
        match &self.static_gain {
            Some(gain) => {
                let in_dofs = all_on_indices(&self.inputs);
                let out_dofs = all_on_indices(&self.outputs);
                proof {
                    lemma_all_on_dofs_bounded(self.inputs@, self.n_io.0 as int);
                    lemma_all_on_dofs_bounded(self.outputs@, self.n_io.1 as int);
                }
                let reduced = gather_columns(gain, self.n_io.1, self.n_io.0, &in_dofs);
                let lin = in_dofs.len();
                let fin = gather_rows(&reduced, self.n_io.1, lin, &out_dofs);
                let m = Mat::new(out_dofs.len(), lin, fin);
                proof {
                    assert forall|o: int, i: int|
                        0 <= o < out_dofs@.len() && 0 <= i < lin implies #[trigger] m.at(o, i)
                        == gain@[(all_on_dofs(self.outputs@)[o] - 1) * self.n_io.0 + all_on_dofs(
                        self.inputs@,
                    )[i] - 1] by {
                        assert(0 <= o * lin) by (nonlinear_arith)
                            requires
                                0 <= o,
                                0 <= lin,
                        ;
                        assert(o * lin + i < out_dofs@.len() * lin) by (nonlinear_arith)
                            requires
                                0 <= o < out_dofs@.len(),
                                0 <= i < lin,
                        ;
                        assert(m.at(o, i) == fin@[o * lin + i]);
                        assert(fin@[o * lin + i] == reduced@[(out_dofs@[o] - 1) * lin + i]);
                        assert(reduced@[(out_dofs@[o] - 1) * lin + i] == gain@[(out_dofs@[o] - 1)
                            * self.n_io.0 + in_dofs@[i] - 1]);
                    }
                }
                Some(m)
            },
            None => None,
        }
    }
}

/// Picks the listed 1-based columns of a matrix, in order.
pub fn pick_columns(matrix: &Mat, dofs: &Vec<u32>) -> (r: Mat)
    requires
        matrix.wf(),
        forall|t: int| 0 <= t < dofs@.len() ==> 1 <= #[trigger] dofs@[t] <= matrix.cols_spec(),
    ensures
        r.wf(),
        r.rows_spec() == matrix.rows_spec(),
        r.cols_spec() == dofs@.len(),
        forall|i: int, j: int|
            0 <= i < r.rows_spec() && 0 <= j < r.cols_spec() ==> #[trigger] r.at(i, j) == matrix.at(
                i,
                dofs@[j] - 1,
            ),
{
    let nr = matrix.rows();
    let l = dofs.len();
    let mut data: Vec<u64> = Vec::new();
    let mut i: usize = 0;
    while i < nr
        invariant
            matrix.wf(),
            nr == matrix.rows_spec(),
            l == dofs@.len(),
            forall|t: int| 0 <= t < dofs@.len() ==> 1 <= #[trigger] dofs@[t] <= matrix.cols_spec(),
            0 <= i <= nr,
            data@.len() == i * l,
            forall|p: int, q: int|
                0 <= p < i && 0 <= q < l ==> #[trigger] data@[p * l + q] == matrix.at(
                    p,
                    dofs@[q] - 1,
                ),
        decreases nr - i,
    {
        let mut j: usize = 0;
        while j < l
            invariant
                matrix.wf(),
                nr == matrix.rows_spec(),
                l == dofs@.len(),
                forall|t: int|
                    0 <= t < dofs@.len() ==> 1 <= #[trigger] dofs@[t] <= matrix.cols_spec(),
                0 <= i < nr,
                0 <= j <= l,
                data@.len() == i * l + j,
                forall|p: int, q: int|
                    0 <= p < i && 0 <= q < l ==> #[trigger] data@[p * l + q] == matrix.at(
                        p,
                        dofs@[q] - 1,
                    ),
                forall|q: int|
                    0 <= q < j ==> #[trigger] data@[i * l + q] == matrix.at(i as int, dofs@[q] - 1),
            decreases l - j,
        {
            let d: u32 = dofs[j];
            let w = matrix.entry(i, (d as usize) - 1);
            data.push(w);
            proof {
                assert forall|p: int, q: int| 0 <= p < i && 0 <= q < l implies #[trigger] data@[p
                    * l + q] == matrix.at(p, dofs@[q] - 1) by {
                    assert(p * l + q < i * l) by (nonlinear_arith)
                        requires
                            0 <= p < i,
                            0 <= q < l,
                    ;
                    assert(0 <= p * l) by (nonlinear_arith)
                        requires
                            0 <= p,
                            0 <= l,
                    ;
                }
            }
            j = j + 1;
        }
        proof {
            assert((i as int + 1) * l == i as int * l + l) by (nonlinear_arith);
        }
        i = i + 1;
    }
    Mat::new(nr, l, data)
}

/// Picks the listed 1-based rows of a matrix, in order.
pub fn pick_rows(matrix: &Mat, dofs: &Vec<u32>) -> (r: Mat)
    requires
        matrix.wf(),
        forall|t: int| 0 <= t < dofs@.len() ==> 1 <= #[trigger] dofs@[t] <= matrix.rows_spec(),
    ensures
        r.wf(),
        r.rows_spec() == dofs@.len(),
        r.cols_spec() == matrix.cols_spec(),
        forall|i: int, j: int|
            0 <= i < r.rows_spec() && 0 <= j < r.cols_spec() ==> #[trigger] r.at(i, j) == matrix.at(
                dofs@[i] - 1,
                j,
            ),
{
    let nc = matrix.cols();
    let l = dofs.len();
    let mut data: Vec<u64> = Vec::new();
    let mut i: usize = 0;
    while i < l
        invariant
            matrix.wf(),
            nc == matrix.cols_spec(),
            l == dofs@.len(),
            forall|t: int| 0 <= t < dofs@.len() ==> 1 <= #[trigger] dofs@[t] <= matrix.rows_spec(),
            0 <= i <= l,
            data@.len() == i * nc,
            forall|p: int, q: int|
                0 <= p < i && 0 <= q < nc ==> #[trigger] data@[p * nc + q] == matrix.at(
                    dofs@[p] - 1,
                    q,
                ),
        decreases l - i,
    {
        let d: u32 = dofs[i];
        let mut j: usize = 0;
        while j < nc
            invariant
                matrix.wf(),
                nc == matrix.cols_spec(),
                l == dofs@.len(),
                forall|t: int|
                    0 <= t < dofs@.len() ==> 1 <= #[trigger] dofs@[t] <= matrix.rows_spec(),
                0 <= i < l,
                0 <= j <= nc,
                d == dofs@[i as int],
                data@.len() == i * nc + j,
                forall|p: int, q: int|
                    0 <= p < i && 0 <= q < nc ==> #[trigger] data@[p * nc + q] == matrix.at(
                        dofs@[p] - 1,
                        q,
                    ),
                forall|q: int|
                    0 <= q < j ==> #[trigger] data@[i * nc + q] == matrix.at(d - 1, q),
            decreases nc - j,
        {
            let w = matrix.entry((d as usize) - 1, j);
            data.push(w);
            proof {
                assert forall|p: int, q: int| 0 <= p < i && 0 <= q < nc implies #[trigger] data@[p
                    * nc + q] == matrix.at(dofs@[p] - 1, q) by {
                    assert(p * nc + q < i * nc) by (nonlinear_arith)
                        requires
                            0 <= p < i,
                            0 <= q < nc,
                    ;
                    assert(0 <= p * nc) by (nonlinear_arith)
                        requires
                            0 <= p,
                            0 <= nc,
                    ;
                }
            }
            j = j + 1;
        }
        proof {
            assert((i as int + 1) * nc == i as int * nc + nc) by (nonlinear_arith);
        }
        i = i + 1;
    }
    Mat::new(l, nc, data)
}

/// Whether `id` is the first position holding a present group with the
/// given name.
pub open spec fn first_group_at(groups: Seq<Option<GroupIo>>, name: Seq<char>, id: int) -> bool {
    &&& 0 <= id < groups.len()
    &&& group_named(groups[id], name)
    &&& forall|j: int| 0 <= j < id ==> !group_named(#[trigger] groups[j], name)
}

/// Whether some present group of the sequence has the given name.
pub open spec fn has_group(groups: Seq<Option<GroupIo>>, name: Seq<char>) -> bool {
    exists|k: int| 0 <= k < groups.len() && group_named(#[trigger] groups[k], name)
}

/// Whether the slot holds a group with the given name.
pub open spec fn group_named(g: Option<GroupIo>, name: Seq<char>) -> bool {
    match g {
        Some(g) => g.name@ == name,
        None => false,
    }
}

/// Finds the first present group with the given name.
fn position_of(groups: &Vec<Option<GroupIo>>, name: &String) -> (r: Option<usize>)
    ensures
        match r {
            Some(k) => first_group_at(groups@, name@, k as int),
            None => !has_group(groups@, name@),
        },
{
    let mut k: usize = 0;
    while k < groups.len()
        invariant
            0 <= k <= groups.len(),
            forall|j: int| 0 <= j < k ==> !group_named(#[trigger] groups@[j], name@),
        decreases groups.len() - k,
    {
        match &groups[k] {
            Some(g) => {
                if g.name == *name {
                    return Some(k);
                }
            },
            None => {},
        }
        k = k + 1;
    }
    None
}

/// Counts the enabled degrees of freedom over all present groups.
fn count_groups_on(groups: &Vec<Option<GroupIo>>) -> (r: usize)
    requires
        total_entries(groups@) <= usize::MAX,
    ensures
        r == total_on(groups@),
{
    let mut n: usize = 0;
    let mut k: usize = 0;
    while k < groups.len()
        invariant
            0 <= k <= groups.len(),
            total_entries(groups@) <= usize::MAX,
            n == total_on(groups@.take(k as int)),
        decreases groups.len() - k,
    {
        proof {
            lemma_total_on_snoc(groups@, k as int);
            lemma_total_on_le(groups@.take(k as int + 1));
            lemma_total_entries_take_le(groups@, k as int + 1);
        }
        match &groups[k] {
            Some(g) => {
                let c = g.len();
                proof {
                    lemma_total_on_le(groups@.take(k as int));
                }
                n = n + c;
            },
            None => {},
        }
        k = k + 1;
    }
    proof {
        assert(groups@.take(groups@.len() as int) =~= groups@);
    }
    n
}

/// Whether the slice holds the value.
pub fn contains_usize(id: &[usize], v: usize) -> (r: bool)
    ensures
        r == id@.contains(v),
{
    let mut k: usize = 0;
    while k < id.len()
        invariant
            0 <= k <= id.len(),
            forall|j: int| 0 <= j < k ==> id@[j] != v,
        decreases id.len() - k,
    {
        if id[k] == v {
            return true;
        }
        k = k + 1;
    }
    false
}

/// Concatenates the enabled indices of every present group, in order.
pub fn all_on_indices(groups: &Vec<Option<GroupIo>>) -> (r: Vec<u32>)
    ensures
        r@ == all_on_dofs(groups@),
{
    let mut out: Vec<u32> = Vec::new();
    let mut k: usize = 0;
    while k < groups.len()
        invariant
            0 <= k <= groups.len(),
            out@ == all_on_dofs(groups@.take(k as int)),
        decreases groups.len() - k,
    {
        proof {
            lemma_all_on_dofs_snoc(groups@, k as int);
        }
        match &groups[k] {
            Some(g) => {
                let mut ids = g.on_indices();
                out.append(&mut ids);
            },
            None => {
                proof {
                    assert(out@ =~= all_on_dofs(groups@.take(k as int)) + Seq::<u32>::empty());
                }
            },
        }
        k = k + 1;
    }
    proof {
        assert(groups@.take(groups@.len() as int) =~= groups@);
    }
    out
}

/// Gathers, for each row of a row-major table `[n_rows, width]`, the entries
/// at the 1-based positions `dofs`, row by row.
pub fn gather_columns(table: &Vec<u64>, n_rows: usize, width: usize, dofs: &Vec<u32>) -> (r: Vec<
    u64,
>)
    requires
        n_rows * width <= table@.len(),
        forall|t: int| 0 <= t < dofs@.len() ==> 1 <= #[trigger] dofs@[t] <= width,
    ensures
        r@.len() == n_rows * dofs@.len(),
        forall|k: int, j: int|
            0 <= k < n_rows && 0 <= j < dofs@.len() ==> #[trigger] r@[k * dofs@.len() + j]
                == table@[k * width + dofs@[j] - 1],
{
    let ghost l = dofs@.len() as int;
    let n = table.len();
    let mut out: Vec<u64> = Vec::new();
    let mut k: usize = 0;
    while k < n_rows
        invariant
            0 <= k <= n_rows,
            n_rows * width <= table@.len(),
            n == table@.len(),
            forall|t: int| 0 <= t < dofs@.len() ==> 1 <= #[trigger] dofs@[t] <= width,
            l == dofs@.len(),
            out@.len() == k * l,
            forall|p: int, j: int|
                0 <= p < k && 0 <= j < l ==> #[trigger] out@[p * l + j] == table@[p * width
                    + dofs@[j] - 1],
        decreases n_rows - k,
    {
        let mut j: usize = 0;
        while j < dofs.len()
            invariant
                0 <= k < n_rows,
                0 <= j <= dofs@.len(),
                n_rows * width <= table@.len(),
                n == table@.len(),
                forall|t: int| 0 <= t < dofs@.len() ==> 1 <= #[trigger] dofs@[t] <= width,
                l == dofs@.len(),
                out@.len() == k * l + j,
                forall|p: int, q: int|
                    0 <= p < k && 0 <= q < l ==> #[trigger] out@[p * l + q] == table@[p * width
                        + dofs@[q] - 1],
                forall|q: int|
                    0 <= q < j ==> #[trigger] out@[k * l + q] == table@[k * width + dofs@[q] - 1],
            decreases dofs@.len() - j,
        {
            let d: u32 = dofs[j];
            proof {
                assert(k * width + d - 1 < n_rows * width) by (nonlinear_arith)
                    requires
                        0 <= k < n_rows,
                        1 <= d <= width,
                ;
                assert(0 <= k * width) by (nonlinear_arith)
                    requires
                        0 <= k,
                        0 <= width,
                ;
            }
            let w: u64 = table[k * width + (d as usize) - 1];
            out.push(w);
            proof {
                assert forall|p: int, q: int| 0 <= p < k && 0 <= q < l implies #[trigger] out@[p * l
                    + q] == table@[p * width + dofs@[q] - 1] by {
                    assert(p * l + q < k * l) by (nonlinear_arith)
                        requires
                            0 <= p < k,
                            0 <= q < l,
                    ;
                    assert(0 <= p * l) by (nonlinear_arith)
                        requires
                            0 <= p,
                            0 <= l,
                    ;
                }
            }
            j = j + 1;
        }
        proof {
            assert((k as int + 1) * l == k as int * l + l) by (nonlinear_arith);
        }
        k = k + 1;
    }
    proof {
        assert(out@.len() == n_rows * l);
    }
    out
}

/// Gathers the rows of a row-major table `[n_rows, width]` at the 1-based
/// positions `dofs`, in that order.
pub fn gather_rows(table: &Vec<u64>, n_rows: usize, width: usize, dofs: &Vec<u32>) -> (r: Vec<u64>)
    requires
        table@.len() == n_rows * width,
        forall|t: int| 0 <= t < dofs@.len() ==> 1 <= #[trigger] dofs@[t] <= n_rows,
    ensures
        r@.len() == dofs@.len() * width,
        forall|t: int, c: int|
            0 <= t < dofs@.len() && 0 <= c < width ==> #[trigger] r@[t * width + c] == table@[(
            dofs@[t] - 1) * width + c],
{
    let n = table.len();
    let mut out: Vec<u64> = Vec::new();
    let mut t: usize = 0;
    while t < dofs.len()
        invariant
            0 <= t <= dofs@.len(),
            table@.len() == n_rows * width,
            n == table@.len(),
            forall|q: int| 0 <= q < dofs@.len() ==> 1 <= #[trigger] dofs@[q] <= n_rows,
            out@.len() == t * width,
            forall|p: int, c: int|
                0 <= p < t && 0 <= c < width ==> #[trigger] out@[p * width + c] == table@[(dofs@[p]
                    - 1) * width + c],
        decreases dofs@.len() - t,
    {
        let d: u32 = dofs[t];
        let mut c: usize = 0;
        while c < width
            invariant
                0 <= t < dofs@.len(),
                0 <= c <= width,
                table@.len() == n_rows * width,
                n == table@.len(),
                forall|q: int| 0 <= q < dofs@.len() ==> 1 <= #[trigger] dofs@[q] <= n_rows,
                d == dofs@[t as int],
                out@.len() == t * width + c,
                forall|p: int, cc: int|
                    0 <= p < t && 0 <= cc < width ==> #[trigger] out@[p * width + cc] == table@[(
                    dofs@[p] - 1) * width + cc],
                forall|cc: int|
                    0 <= cc < c ==> #[trigger] out@[t * width + cc] == table@[(d - 1) * width + cc],
            decreases width - c,
        {
            proof {
                assert((d - 1) * width + c < n_rows * width) by (nonlinear_arith)
                    requires
                        1 <= d <= n_rows,
                        0 <= c < width,
                ;
                assert(0 <= (d - 1) * width) by (nonlinear_arith)
                    requires
                        1 <= d,
                        0 <= width,
                ;
            }
            let w: u64 = table[((d as usize) - 1) * width + c];
            out.push(w);
            proof {
                assert forall|p: int, cc: int| 0 <= p < t && 0 <= cc < width implies #[trigger] out@[
                    p * width + cc] == table@[(dofs@[p] - 1) * width + cc] by {
                    assert(p * width + cc < t * width) by (nonlinear_arith)
                        requires
                            0 <= p < t,
                            0 <= cc < width,
                    ;
                    assert(0 <= p * width) by (nonlinear_arith)
                        requires
                            0 <= p,
                            0 <= width,
                    ;
                }
            }
            c = c + 1;
        }
        proof {
            assert((t as int + 1) * width == t as int * width + width) by (nonlinear_arith);
        }
        t = t + 1;
    }
    out
}

/// Drops every group whose position is not listed.
fn keep_groups(groups: &mut Vec<Option<GroupIo>>, id: &[usize])
    ensures
        final(groups)@.len() == old(groups)@.len(),
        forall|k: int|
            0 <= k < old(groups)@.len() ==> final(groups)@[k] == (if id@.contains(k as usize) {
                old(groups)@[k]
            } else {
                None
            }),
{
    let mut k: usize = 0;
    while k < groups.len()
        invariant
            0 <= k <= groups.len(),
            groups@.len() == old(groups)@.len(),
            forall|j: int|
                k <= j < groups@.len() ==> groups@[j] == old(groups)@[j],
            forall|j: int|
                0 <= j < k ==> groups@[j] == (if id@.contains(j as usize) {
                    old(groups)@[j]
                } else {
                    None
                }),
        decreases groups.len() - k,
    {
        if !contains_usize(id, k) {
            groups.set(k, None);
        }
        k = k + 1;
    }
}

} // verus!
