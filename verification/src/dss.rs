//! The state-space builder: a declarative configuration that is turned into
//! a `DiscreteModalSolver` by assembling the reduced modal matrices from the
//! selected groups of the model.

use vstd::prelude::*;

verus! {

use crate::error::StateSpaceError;
use crate::fem::{FEM, first_group_at, has_group, lemma_on_dofs_bounded};
use crate::io::on_dofs;
use crate::io::GroupIo;
use crate::matrix::Mat;
use crate::solver::{DiscreteModalSolver, Exponential, SplitFem, ranges_contiguous};

/// The position of the first present group with the given name; meaningful
/// only when one exists.
pub open spec fn first_pos(groups: Seq<Option<GroupIo>>, name: Seq<char>) -> int {
    choose|k: int| first_group_at(groups, name, k)
}

/// A first match settles the choice.
pub proof fn lemma_first_pos(groups: Seq<Option<GroupIo>>, name: Seq<char>, k: int)
    requires
        first_group_at(groups, name, k),
    ensures
        first_pos(groups, name) == k,
{
    let j = first_pos(groups, name);
    assert(first_group_at(groups, name, j));
    if j < k {
        assert(!crate::fem::group_named(groups[j], name));
    }
    if k < j {
        assert(!crate::fem::group_named(groups[k], name));
    }
}

/// The enabled indices of the first present group with the given name;
/// empty when none exists.
pub open spec fn dofs_of_first(groups: Seq<Option<GroupIo>>, name: Seq<char>) -> Seq<u32> {
    if has_group(groups, name) {
        match groups[first_pos(groups, name)] {
            Some(g) => on_dofs(g.io@),
            None => Seq::empty(),
        }
    } else {
        Seq::empty()
    }
}

/// Sum of the enabled input degrees of freedom over the named groups.
pub open spec fn in_total(groups: Seq<Option<GroupIo>>, names: Seq<String>) -> nat
    decreases names.len(),
{
    if names.len() == 0 {
        0
    } else {
        dofs_of_first(groups, names[0]@).len() + in_total(groups, names.skip(1))
    }
}

/// How many rows the named output group contributes: the rows of its
/// transform block when one was registered, else its enabled count.
pub open spec fn out_rows_of(
    groups: Seq<Option<GroupIo>>,
    name: Seq<char>,
    tr: Option<Mat>,
) -> nat {
    match tr {
        Some(bl) => bl.rows_spec() as nat,
        None => dofs_of_first(groups, name).len(),
    }
}

/// Sum of the output rows over the named groups, transforms included.
pub open spec fn out_total(
    groups: Seq<Option<GroupIo>>,
    names: Seq<String>,
    trs: Seq<Option<Mat>>,
) -> nat
    decreases names.len(),
{
    if names.len() == 0 {
        0
    } else {
        out_rows_of(groups, names[0]@, trs[0]) + out_total(groups, names.skip(1), trs.skip(1))
    }
}

/// Peeling one name off the end of the prefix adds its contribution.
pub proof fn lemma_in_total_snoc(groups: Seq<Option<GroupIo>>, names: Seq<String>, t: int)
    requires
        0 <= t < names.len(),
    ensures
        in_total(groups, names.take(t + 1)) == in_total(groups, names.take(t)) + dofs_of_first(
            groups,
            names[t]@,
        ).len(),
    decreases t,
{
    if t == 0 {
        assert(names.take(1).skip(1) =~= Seq::<String>::empty());
        assert(names.take(0) =~= Seq::<String>::empty());
    } else {
        lemma_in_total_snoc(groups, names.skip(1), t - 1);
        assert(names.take(t + 1).skip(1) =~= names.skip(1).take(t));
        assert(names.take(t).skip(1) =~= names.skip(1).take(t - 1));
        assert(names.skip(1)[t - 1] == names[t]);
    }
}

/// The same, for the output rows.
pub proof fn lemma_out_total_snoc(
    groups: Seq<Option<GroupIo>>,
    names: Seq<String>,
    trs: Seq<Option<Mat>>,
    t: int,
)
    requires
        0 <= t < names.len(),
        trs.len() == names.len(),
    ensures
        out_total(groups, names.take(t + 1), trs.take(t + 1)) == out_total(
            groups,
            names.take(t),
            trs.take(t),
        ) + out_rows_of(groups, names[t]@, trs[t]),
    decreases t,
{
    if t == 0 {
        assert(names.take(1).skip(1) =~= Seq::<String>::empty());
        assert(names.take(0) =~= Seq::<String>::empty());
        assert(trs.take(1).skip(1) =~= Seq::<Option<Mat>>::empty());
        assert(trs.take(0) =~= Seq::<Option<Mat>>::empty());
    } else {
        lemma_out_total_snoc(groups, names.skip(1), trs.skip(1), t - 1);
        assert(names.take(t + 1).skip(1) =~= names.skip(1).take(t));
        assert(names.take(t).skip(1) =~= names.skip(1).take(t - 1));
        assert(trs.take(t + 1).skip(1) =~= trs.skip(1).take(t));
        assert(trs.take(t).skip(1) =~= trs.skip(1).take(t - 1));
        assert(names.skip(1)[t - 1] == names[t]);
        assert(trs.skip(1)[t - 1] == trs[t]);
    }
}

/// The output-row total of a prefix never exceeds the whole total.
pub proof fn lemma_out_total_take_le(
    groups: Seq<Option<GroupIo>>,
    names: Seq<String>,
    trs: Seq<Option<Mat>>,
    t: int,
)
    requires
        0 <= t <= names.len(),
        trs.len() == names.len(),
    ensures
        out_total(groups, names.take(t), trs.take(t)) <= out_total(groups, names, trs),
    decreases names.len() - t,
{
    if t == names.len() {
        assert(names.take(t) =~= names);
        assert(trs.take(t) =~= trs);
    } else {
        lemma_out_total_snoc(groups, names, trs, t);
        lemma_out_total_take_le(groups, names, trs, t + 1);
    }
}

/// A block of rows written earlier in a row-major buffer is untouched by
/// later appends.
pub proof fn lemma_block_preserved(
    data: Seq<u64>,
    pre: Seq<u64>,
    start_q: int,
    end_q: int,
    n_mode: int,
    off: int,
)
    requires
        forall|p: int| 0 <= p < pre.len() ==> #[trigger] data[p] == pre[p],
        pre.len() == off * n_mode,
        0 <= start_q,
        end_q <= off,
        0 <= n_mode,
    ensures
        forall|j: int, k: int|
            0 <= j && start_q + j < end_q && 0 <= k < n_mode ==> #[trigger] data[(start_q + j)
                * n_mode + k] == pre[(start_q + j) * n_mode + k],
{
    assert forall|j: int, k: int|
        0 <= j && start_q + j < end_q && 0 <= k < n_mode implies #[trigger] data[(start_q + j)
        * n_mode + k] == pre[(start_q + j) * n_mode + k] by {
        assert(0 <= (start_q + j) * n_mode + k < off * n_mode) by (nonlinear_arith)
            requires
                0 <= start_q + j < end_q <= off,
                0 <= k < n_mode,
        ;
    }
}

/// The working frequency vector after the overrides, applied in list order;
/// an override addressing no mode changes nothing.
pub open spec fn apply_overrides(w: Seq<u64>, ov: Seq<(usize, u64)>) -> Seq<u64>
    decreases ov.len(),
{
    if ov.len() == 0 {
        w
    } else {
        apply_overrides(
            if ov[0].0 < w.len() {
                w.update(ov[0].0 as int, ov[0].1)
            } else {
                w
            },
            ov.skip(1),
        )
    }
}

/// Whether every override addresses an existing mode.
pub open spec fn overrides_ok(ov: Seq<(usize, u64)>, n_modes: nat) -> bool {
    forall|t: int| 0 <= t < ov.len() ==> (#[trigger] ov[t]).0 < n_modes
}

/// Overrides keep the length of the vector.
pub proof fn lemma_apply_overrides_len(w: Seq<u64>, ov: Seq<(usize, u64)>)
    ensures
        apply_overrides(w, ov).len() == w.len(),
    decreases ov.len(),
{
    if ov.len() > 0 {
        if ov[0].0 < w.len() {
            lemma_apply_overrides_len(w.update(ov[0].0 as int, ov[0].1), ov.skip(1));
        } else {
            lemma_apply_overrides_len(w, ov.skip(1));
        }
    }
}

/// How many of the words, read as non-negative finite IEEE-754 values, lie
/// at or below the bound; the unsigned order of such words is their numeric
/// order.
pub open spec fn count_le(w: Seq<u64>, max: u64) -> nat
    decreases w.len(),
{
    if w.len() == 0 {
        0
    } else {
        (if w[0] <= max {
            1nat
        } else {
            0nat
        }) + count_le(w.skip(1), max)
    }
}

/// Peeling one word off the end of the prefix adds its contribution.
pub proof fn lemma_count_le_snoc(w: Seq<u64>, max: u64, i: int)
    requires
        0 <= i < w.len(),
    ensures
        count_le(w.take(i + 1), max) == count_le(w.take(i), max) + (if w[i] <= max {
            1nat
        } else {
            0nat
        }),
    decreases i,
{
    if i == 0 {
        assert(w.take(1).skip(1) =~= Seq::<u64>::empty());
        assert(w.take(0) =~= Seq::<u64>::empty());
    } else {
        lemma_count_le_snoc(w.skip(1), max, i - 1);
        assert(w.take(i + 1).skip(1) =~= w.skip(1).take(i));
        assert(w.take(i).skip(1) =~= w.skip(1).take(i - 1));
        assert(w.skip(1)[i - 1] == w[i]);
    }
}

/// The count never exceeds the length.
pub proof fn lemma_count_le_bound(w: Seq<u64>, max: u64)
    ensures
        count_le(w, max) <= w.len(),
    decreases w.len(),
{
    if w.len() > 0 {
        lemma_count_le_bound(w.skip(1), max);
    }
}

/// The declarative configuration of the discrete state-space model.
/// Scalar-valued options are IEEE-754 binary64 words.
#[derive(Debug)]
pub struct DiscreteStateSpace {
    /// Sampling rate in Hz; required.
    pub sampling: Option<u64>,
    /// The model the builder consumes.
    pub fem: Option<FEM>,
    /// A damping ratio overriding the model's vector on every retained mode.
    pub zeta: Option<u64>,
    /// Eigen-frequency overrides, `(mode index, frequency in Hz)`.
    pub eigen_frequencies: Option<Vec<(usize, u64)>>,
    /// Retain only the modes with frequency at or below this bound (Hz).
    pub max_eigen_frequency: Option<u64>,
    /// Drop the modes whose Hankel singular value lies at or below this.
    pub hankel_singular_values_threshold: Option<u64>,
    /// Total input and output counts, enabling static-gain compensation.
    pub n_io: Option<(usize, usize)>,
    /// The selected input groups, by name, in declaration order.
    pub ins: Vec<String>,
    /// The selected output groups, by name, in declaration order.
    pub outs: Vec<String>,
    /// For each selected output group, an optional pre-multiplied
    /// modes-to-outputs block standing in for the group's raw rows.
    pub outs_transform: Vec<Option<Mat>>,
}

impl DiscreteStateSpace {
    /// The held model, when present, is well formed; the output selection
    /// and its transforms walk together; every transform block is well
    /// formed; and the words the truncation rules compare carry non-negative
    /// finite values, so their unsigned order is their numeric order.
    pub open spec fn wf(&self) -> bool {
        &&& match self.fem {
            Some(f) => f.wf(),
            None => true,
        }
        &&& self.outs_transform@.len() == self.outs@.len()
        &&& forall|t: int|
            0 <= t < self.outs_transform@.len() ==> match #[trigger] self.outs_transform@[t] {
                Some(bl) => bl.wf(),
                None => true,
            }
        &&& match self.max_eigen_frequency {
            Some(w) => crate::nonneg_finite_word(w),
            None => true,
        }
        &&& match self.hankel_singular_values_threshold {
            Some(w) => crate::nonneg_finite_word(w),
            None => true,
        }
        &&& match self.eigen_frequencies {
            Some(o) => forall|t: int|
                0 <= t < o@.len() ==> crate::nonneg_finite_word((#[trigger] o@[t]).1),
            None => true,
        }
    }

    /// A builder holding the model and nothing else.
    pub fn from_fem(fem: FEM) -> (r: DiscreteStateSpace)
        ensures
            r.fem matches Some(f) && f == fem,
            r.sampling is None,
            r.zeta is None,
            r.eigen_frequencies is None,
            r.max_eigen_frequency is None,
            r.hankel_singular_values_threshold is None,
            r.n_io is None,
            r.ins@.len() == 0,
            r.outs@.len() == 0,
            r.outs_transform@.len() == 0,
            fem.wf() ==> r.wf(),
    {
        DiscreteStateSpace {
            sampling: None,
            fem: Some(fem),
            zeta: None,
            eigen_frequencies: None,
            max_eigen_frequency: None,
            hankel_singular_values_threshold: None,
            n_io: None,
            ins: Vec::new(),
            outs: Vec::new(),
            outs_transform: Vec::new(),
        }
    }

    /// Sets the sampling rate in Hz.
    pub fn sampling(self, sampling: u64) -> (r: DiscreteStateSpace)
        ensures
            r == (DiscreteStateSpace { sampling: Some(sampling), ..self }),
    {
        DiscreteStateSpace { sampling: Some(sampling), ..self }
    }

    /// Overrides the damping ratio of every retained mode.
    pub fn proportional_damping(self, zeta: u64) -> (r: DiscreteStateSpace)
        ensures
            r == (DiscreteStateSpace { zeta: Some(zeta), ..self }),
    {
        DiscreteStateSpace { zeta: Some(zeta), ..self }
    }

    /// Enables the static-gain compensation path; the pair carries the
    /// model's total input and output counts.
    pub fn use_static_gain_compensation(self, n_io: (usize, usize)) -> (r: DiscreteStateSpace)
        ensures
            r == (DiscreteStateSpace { n_io: Some(n_io), ..self }),
    {
        DiscreteStateSpace { n_io: Some(n_io), ..self }
    }

    /// Replaces some eigen frequencies, `(mode index, frequency in Hz)`; a
    /// frequency word must carry a non-negative finite value.
    pub fn eigen_frequencies(self, eigen_frequencies: Vec<(usize, u64)>) -> (r: DiscreteStateSpace)
        requires
            forall|t: int|
                0 <= t < eigen_frequencies@.len() ==> crate::nonneg_finite_word(
                    (#[trigger] eigen_frequencies@[t]).1,
                ),
        ensures
            r == (DiscreteStateSpace {
                eigen_frequencies: Some(eigen_frequencies),
                ..self
            }),
    {
        DiscreteStateSpace { eigen_frequencies: Some(eigen_frequencies), ..self }
    }

    /// Retains only the modes with eigen frequency at or below the bound
    /// (Hz); the bound word must carry a non-negative finite value, so that
    /// the word comparison is the numeric one.
    pub fn max_eigen_frequency(self, max_eigen_frequency: u64) -> (r: DiscreteStateSpace)
        requires
            crate::nonneg_finite_word(max_eigen_frequency),
        ensures
            r == (DiscreteStateSpace {
                max_eigen_frequency: Some(max_eigen_frequency),
                ..self
            }),
    {
        DiscreteStateSpace { max_eigen_frequency: Some(max_eigen_frequency), ..self }
    }

    /// Drops the modes whose Hankel singular value lies at or below the
    /// threshold; the truncation runs once the values are known.  The
    /// threshold word must carry a non-negative finite value, so that the
    /// word comparison is the numeric one.
    pub fn truncate_hankel_singular_values(self, threshold: u64) -> (r: DiscreteStateSpace)
        requires
            crate::nonneg_finite_word(threshold),
        ensures
            r == (DiscreteStateSpace {
                hankel_singular_values_threshold: Some(threshold),
                ..self
            }),
    {
        DiscreteStateSpace { hankel_singular_values_threshold: Some(threshold), ..self }
    }

    /// Appends an input group to the selection, by name.
    pub fn ins(self, name: String) -> (r: DiscreteStateSpace)
        ensures
            r.ins@ == self.ins@.push(name),
            r.sampling == self.sampling,
            r.fem == self.fem,
            r.zeta == self.zeta,
            r.eigen_frequencies == self.eigen_frequencies,
            r.max_eigen_frequency == self.max_eigen_frequency,
            r.hankel_singular_values_threshold == self.hankel_singular_values_threshold,
            r.n_io == self.n_io,
            r.outs == self.outs,
            r.outs_transform == self.outs_transform,
    {
        let mut s = self;
        s.ins.push(name);
        s
    }

    /// Appends an output group to the selection, by name.
    pub fn outs(self, name: String) -> (r: DiscreteStateSpace)
        ensures
            r.outs@ == self.outs@.push(name),
            r.outs_transform@ == self.outs_transform@.push(None),
            r.sampling == self.sampling,
            r.fem == self.fem,
            r.zeta == self.zeta,
            r.eigen_frequencies == self.eigen_frequencies,
            r.max_eigen_frequency == self.max_eigen_frequency,
            r.hankel_singular_values_threshold == self.hankel_singular_values_threshold,
            r.n_io == self.n_io,
            r.ins == self.ins,
    {
        let mut s = self;
        s.outs.push(name);
        s.outs_transform.push(None);
        s
    }

    /// Appends an output group to the selection together with a
    /// pre-multiplied modes-to-outputs block that stands in for the group's
    /// raw rows; the block must span every mode of the model.
    pub fn outs_with(self, name: String, block: Mat) -> (r: DiscreteStateSpace)
        requires
            block.wf(),
        ensures
            r.outs@ == self.outs@.push(name),
            r.outs_transform@ == self.outs_transform@.push(Some(block)),
            r.sampling == self.sampling,
            r.fem == self.fem,
            r.zeta == self.zeta,
            r.eigen_frequencies == self.eigen_frequencies,
            r.max_eigen_frequency == self.max_eigen_frequency,
            r.hankel_singular_values_threshold == self.hankel_singular_values_threshold,
            r.n_io == self.n_io,
            r.ins == self.ins,
    {
        let mut s = self;
        s.outs.push(name);
        s.outs_transform.push(Some(block));
        s
    }

    /// Assembles the reduced inputs-to-modes matrix: one block of columns
    /// per selected input group, in declaration order; each group's
    /// descriptor receives its column range, and `sel` lists the gathered
    /// 1-based global indices.
    fn in2mode(&self, n_mode: usize) -> (r: Result<
        (Mat, Vec<SplitFem>, Vec<u32>),
        StateSpaceError,
    >)
        requires
            self.wf(),
            self.fem matches Some(f) && n_mode <= f.n_modes_spec(),
        ensures
            match (r, &self.fem) {
                (Ok((b, descs, sel)), Some(f)) => {
                    &&& forall|t: int|
                        0 <= t < self.ins@.len() ==> has_group(
                            f.inputs@,
                            (#[trigger] self.ins@[t])@,
                        )
                    &&& descs@.len() == self.ins@.len()
                    &&& forall|t: int|
                        0 <= t < descs@.len() ==> (#[trigger] descs@[t]).name == self.ins@[t]
                    &&& ranges_contiguous(descs@, sel@.len())
                    &&& forall|x: int| 0 <= x < sel@.len() ==> 1 <= #[trigger] sel@[x] <= f.n_io.0
                    &&& sel@.len() == in_total(f.inputs@, self.ins@)
                    &&& b.wf()
                    &&& b.rows_spec() == n_mode
                    &&& b.cols_spec() == sel@.len()
                    &&& forall|k: int, q: int|
                        0 <= k < n_mode && 0 <= q < sel@.len() ==> #[trigger] b.at(k, q)
                            == f.inputs_to_modal_forces@[k * f.n_io.0 + sel@[q] - 1]
                    &&& forall|t: int, id: int|
                        0 <= t < self.ins@.len() && #[trigger] first_group_at(
                            f.inputs@,
                            self.ins@[t]@,
                            id,
                        ) ==> match f.inputs@[id] {
                            Some(g) => descs@[t].end - descs@[t].start == on_dofs(g.io@).len()
                                && sel@.subrange(descs@[t].start as int, descs@[t].end as int)
                                == on_dofs(g.io@),
                            None => false,
                        }
                },
                (Err(StateSpaceError::MissingArguments(m)), Some(f)) => exists|t: int|
                    0 <= t < self.ins@.len() && m == #[trigger] self.ins@[t] && !has_group(
                        f.inputs@,
                        self.ins@[t]@,
                    ),
                _ => false,
            },
            match &self.fem {
                Some(f) => r is Ok <==> forall|t: int|
                    0 <= t < self.ins@.len() ==> has_group(f.inputs@, (#[trigger] self.ins@[t])@),
                None => false,
            },
    {
        let f = self.fem.as_ref().unwrap();
        let mut sel: Vec<u32> = Vec::new();
        let mut descs: Vec<SplitFem> = Vec::new();
        let mut t: usize = 0;
        while t < self.ins.len()
            invariant
                self.fem matches Some(ff) && ff == *f,
                self.wf(),
                0 <= t <= self.ins@.len(),
                descs@.len() == t,
                forall|q: int|
                    0 <= q < t ==> has_group(f.inputs@, (#[trigger] self.ins@[q])@),
                forall|q: int|
                    0 <= q < t ==> (#[trigger] descs@[q]).name == self.ins@[q],
                ranges_contiguous(descs@, sel@.len()),
                sel@.len() == in_total(f.inputs@, self.ins@.take(t as int)),
                forall|x: int| 0 <= x < sel@.len() ==> 1 <= #[trigger] sel@[x] <= f.n_io.0,
                forall|q: int, id: int|
                    0 <= q < t && #[trigger] first_group_at(f.inputs@, self.ins@[q]@, id)
                        ==> match f.inputs@[id] {
                        Some(g) => descs@[q].end - descs@[q].start == on_dofs(g.io@).len()
                            && sel@.subrange(descs@[q].start as int, descs@[q].end as int)
                            == on_dofs(g.io@),
                        None => false,
                    },
            decreases self.ins.len() - t,
        {
            let name = &self.ins[t];
            match f.in_position(name) {
                None => {
                    return Err(StateSpaceError::MissingArguments(name.clone()));
                },
                Some(id) => {
                    let g = f.inputs[id].as_ref().unwrap();
                    proof {
                        lemma_on_dofs_bounded(g.io@, f.n_io.0 as int);
                        lemma_first_pos(f.inputs@, name@, id as int);
                        lemma_in_total_snoc(f.inputs@, self.ins@, t as int);
                    }
                    let mut dofs = g.on_indices();
                    let ghost pre_sel = sel@;
                    let ghost pre_descs = descs@;
                    let start = sel.len();
                    sel.append(&mut dofs);
                    let end = sel.len();
                    descs.push(SplitFem { name: name.clone(), start, end });
                    proof {
                        assert(sel@.subrange(start as int, end as int) =~= on_dofs(g.io@));
                        assert forall|q: int, idq: int|
                            0 <= q < t + 1 && #[trigger] first_group_at(
                                f.inputs@,
                                self.ins@[q]@,
                                idq,
                            ) implies match f.inputs@[idq] {
                            Some(gg) => descs@[q].end - descs@[q].start == on_dofs(gg.io@).len()
                                && sel@.subrange(descs@[q].start as int, descs@[q].end as int)
                                == on_dofs(gg.io@),
                            None => false,
                        } by {
                            if q < t {
                                assert(descs@[q] == pre_descs[q]);
                                assert(sel@.subrange(
                                    descs@[q].start as int,
                                    descs@[q].end as int,
                                ) =~= pre_sel.subrange(
                                    descs@[q].start as int,
                                    descs@[q].end as int,
                                ));
                            } else {
                                assert(first_group_at(f.inputs@, name@, id as int));
                                assert(idq == id);
                            }
                        }
                    }
                },
            }
            t = t + 1;
        }
        proof {
            assert(self.ins@.take(self.ins@.len() as int) =~= self.ins@);
            assert(n_mode * f.n_io.0 <= f.n_modes_spec() * f.n_io.0) by (nonlinear_arith)
                requires
                    n_mode <= f.n_modes_spec(),
                    0 <= f.n_io.0,
            ;
        }
        let data = crate::fem::gather_columns(&f.inputs_to_modal_forces, n_mode, f.n_io.0, &sel);
        let b = Mat::new(n_mode, sel.len(), data);
        Ok((b, descs, sel))
    }

    /// Assembles the reduced modes-to-outputs matrix: one block of rows per
    /// selected output group, in declaration order; a group registered with
    /// a transform block contributes that block's rows instead of its raw
    /// ones.  `sel` lists the gathered 1-based global indices and spans the
    /// rows whenever no transform is in play.
    fn mode2out(&self, n_mode: usize) -> (r: Result<
        (Mat, Vec<SplitFem>, Vec<u32>),
        StateSpaceError,
    >)
        requires
            self.wf(),
            self.fem matches Some(f) && n_mode <= f.n_modes_spec(),
        ensures
            match (r, &self.fem) {
                (Ok((c, descs, sel)), Some(f)) => {
                    &&& forall|t: int|
                        0 <= t < self.outs@.len() ==> has_group(
                            f.outputs@,
                            (#[trigger] self.outs@[t])@,
                        )
                    &&& forall|t: int|
                        0 <= t < self.outs@.len() ==> match #[trigger] self.outs_transform@[t] {
                            Some(bl) => bl.cols_spec() == f.n_modes_spec(),
                            None => true,
                        }
                    &&& out_total(f.outputs@, self.outs@, self.outs_transform@) <= usize::MAX
                    &&& descs@.len() == self.outs@.len()
                    &&& forall|t: int|
                        0 <= t < descs@.len() ==> (#[trigger] descs@[t]).name == self.outs@[t]
                    &&& ranges_contiguous(descs@, c.rows_spec() as nat)
                    &&& c.wf()
                    &&& c.cols_spec() == n_mode
                    &&& c.rows_spec() == out_total(f.outputs@, self.outs@, self.outs_transform@)
                    &&& forall|t: int, id: int|
                        0 <= t < self.outs@.len() && #[trigger] first_group_at(
                            f.outputs@,
                            self.outs@[t]@,
                            id,
                        ) ==> match (f.outputs@[id], self.outs_transform@[t]) {
                            (Some(g), None) => descs@[t].end - descs@[t].start == on_dofs(
                                g.io@,
                            ).len() && forall|j: int, k: int|
                                0 <= j < on_dofs(g.io@).len() && 0 <= k < n_mode
                                    ==> #[trigger] c.at(descs@[t].start + j, k)
                                    == f.modal_disp_to_outputs@[(on_dofs(g.io@)[j] - 1)
                                    * f.n_modes_spec() + k],
                            (Some(g), Some(bl)) => descs@[t].end - descs@[t].start
                                == bl.rows_spec() && forall|j: int, k: int|
                                0 <= j < bl.rows_spec() && 0 <= k < n_mode
                                    ==> #[trigger] c.at(descs@[t].start + j, k) == bl.at(j, k),
                            (None, _) => false,
                        }
                    &&& (forall|t: int|
                        0 <= t < self.outs@.len() ==> (#[trigger] self.outs_transform@[t]) is None)
                        ==> {
                        &&& sel@.len() == c.rows_spec()
                        &&& forall|x: int| 0 <= x < sel@.len() ==> 1 <= #[trigger] sel@[x] <= f.n_io.1
                        &&& forall|t: int, id: int|
                            0 <= t < self.outs@.len() && #[trigger] first_group_at(
                                f.outputs@,
                                self.outs@[t]@,
                                id,
                            ) ==> match f.outputs@[id] {
                                Some(g) => sel@.subrange(
                                    descs@[t].start as int,
                                    descs@[t].end as int,
                                ) == on_dofs(g.io@),
                                None => false,
                            }
                    }
                },
                (Err(StateSpaceError::MissingArguments(m)), Some(f)) => exists|t: int|
                    0 <= t < self.outs@.len() && m == #[trigger] self.outs@[t] && !has_group(
                        f.outputs@,
                        self.outs@[t]@,
                    ),
                (Err(StateSpaceError::Matrix(_)), Some(f)) => (exists|t: int|
                    0 <= t < self.outs@.len() && match #[trigger] self.outs_transform@[t] {
                        Some(bl) => bl.cols_spec() != f.n_modes_spec(),
                        None => false,
                    }) || out_total(f.outputs@, self.outs@, self.outs_transform@) > usize::MAX,
                _ => false,
            },
            match &self.fem {
                Some(f) => r is Ok <==> ((forall|t: int|
                    0 <= t < self.outs@.len() ==> has_group(
                        f.outputs@,
                        (#[trigger] self.outs@[t])@,
                    )) && (forall|t: int|
                    0 <= t < self.outs@.len() ==> match #[trigger] self.outs_transform@[t] {
                        Some(bl) => bl.cols_spec() == f.n_modes_spec(),
                        None => true,
                    }) && out_total(f.outputs@, self.outs@, self.outs_transform@) <= usize::MAX),
                None => false,
            },
    {
        let f = self.fem.as_ref().unwrap();
        let ghost groups = f.outputs@;
        let ghost names = self.outs@;
        let ghost trs = self.outs_transform@;
        let n_modes_total = f.eigen_frequencies.len();
        let mut data: Vec<u64> = Vec::new();
        let mut descs: Vec<SplitFem> = Vec::new();
        let mut sel: Vec<u32> = Vec::new();
        let mut off: usize = 0;
        let mut t: usize = 0;
        while t < self.outs.len()
            invariant
                self.fem matches Some(ff) && ff == *f,
                self.wf(),
                n_mode <= f.n_modes_spec(),
                n_modes_total == f.n_modes_spec(),
                groups == f.outputs@,
                names == self.outs@,
                trs == self.outs_transform@,
                trs.len() == names.len(),
                0 <= t <= names.len(),
                descs@.len() == t,
                forall|q: int| 0 <= q < t ==> has_group(groups, (#[trigger] names[q])@),
                forall|q: int|
                    0 <= q < t ==> match #[trigger] trs[q] {
                        Some(bl) => bl.cols_spec() == f.n_modes_spec(),
                        None => true,
                    },
                forall|q: int| 0 <= q < t ==> (#[trigger] descs@[q]).name == names[q],
                off == out_total(groups, names.take(t as int), trs.take(t as int)),
                data@.len() == off * n_mode,
                ranges_contiguous(descs@, off as nat),
                forall|q: int, id: int|
                    0 <= q < t && #[trigger] first_group_at(groups, names[q]@, id) ==> match (
                        groups[id],
                        trs[q],
                    ) {
                        (Some(g), None) => descs@[q].end - descs@[q].start == on_dofs(
                            g.io@,
                        ).len() && forall|j: int, k: int|
                            0 <= j < on_dofs(g.io@).len() && 0 <= k < n_mode
                                ==> #[trigger] data@[(descs@[q].start + j) * n_mode + k]
                                == f.modal_disp_to_outputs@[(on_dofs(g.io@)[j] - 1)
                                * f.n_modes_spec() + k],
                        (Some(g), Some(bl)) => descs@[q].end - descs@[q].start == bl.rows_spec()
                            && forall|j: int, k: int|
                            0 <= j < bl.rows_spec() && 0 <= k < n_mode
                                ==> #[trigger] data@[(descs@[q].start + j) * n_mode + k] == bl.at(
                                j,
                                k,
                            ),
                        (None, _) => false,
                    },
                (forall|q: int| 0 <= q < t ==> (#[trigger] trs[q]) is None) ==> {
                    &&& sel@.len() == off
                    &&& forall|x: int| 0 <= x < sel@.len() ==> 1 <= #[trigger] sel@[x] <= f.n_io.1
                    &&& forall|q: int, id: int|
                        0 <= q < t && #[trigger] first_group_at(groups, names[q]@, id)
                            ==> match groups[id] {
                            Some(g) => sel@.subrange(
                                descs@[q].start as int,
                                descs@[q].end as int,
                            ) == on_dofs(g.io@),
                            None => false,
                        }
                },
            decreases self.outs.len() - t,
        {
            let name = &self.outs[t];
            let id = match f.out_position(name) {
                None => {
                    return Err(StateSpaceError::MissingArguments(name.clone()));
                },
                Some(id) => id,
            };
            let g = f.outputs[id].as_ref().unwrap();
            proof {
                lemma_first_pos(groups, name@, id as int);
                lemma_out_total_snoc(groups, names, trs, t as int);
                lemma_out_total_take_le(groups, names, trs, t as int + 1);
            }
            let ghost pre_data = data@;
            let ghost pre_descs = descs@;
            let ghost pre_sel = sel@;
            let rows: usize;
            match &self.outs_transform[t] {
                None => {
                    let mut dofs = g.on_indices();
                    proof {
                        lemma_on_dofs_bounded(g.io@, f.n_io.1 as int);
                    }
                    rows = dofs.len();
                    if rows > usize::MAX - off {
                        return Err(
                            StateSpaceError::Matrix(
                                String::from_str("output selection does not fit"),
                            ),
                        );
                    }
                    let mut j: usize = 0;
                    while j < rows
                        invariant
                            self.fem matches Some(ff2) && ff2 == *f,
                            n_mode <= f.n_modes_spec(),
                            n_modes_total == f.n_modes_spec(),
                            0 <= j <= rows,
                            rows == dofs@.len(),
                            dofs@ == on_dofs(g.io@),
                            forall|x: int|
                                0 <= x < dofs@.len() ==> 1 <= #[trigger] dofs@[x] <= f.n_io.1,
                            f.modal_disp_to_outputs@.len() == f.n_io.1 * f.n_modes_spec(),
                            data@.len() == pre_data.len() + j * n_mode,
                            pre_data.len() == off * n_mode,
                            data@ =~= pre_data + data@.subrange(
                                pre_data.len() as int,
                                data@.len() as int,
                            ),
                            forall|jj: int, k: int|
                                0 <= jj < j && 0 <= k < n_mode ==> #[trigger] data@[(off + jj)
                                    * n_mode + k] == f.modal_disp_to_outputs@[(dofs@[jj] - 1)
                                    * f.n_modes_spec() + k],
                            forall|p: int| 0 <= p < pre_data.len() ==> #[trigger] data@[p] == pre_data[p],
                        decreases rows - j,
                    {
                        let d: u32 = dofs[j];
                        let mut k: usize = 0;
                        while k < n_mode
                            invariant
                                self.fem matches Some(ff3) && ff3 == *f,
                                n_mode <= f.n_modes_spec(),
                                n_modes_total == f.n_modes_spec(),
                                0 <= j < rows,
                                0 <= k <= n_mode,
                                rows == dofs@.len(),
                                dofs@ == on_dofs(g.io@),
                                d == dofs@[j as int],
                                1 <= d <= f.n_io.1,
                                f.modal_disp_to_outputs@.len() == f.n_io.1 * f.n_modes_spec(),
                                data@.len() == pre_data.len() + j * n_mode + k,
                                pre_data.len() == off * n_mode,
                                forall|jj: int, kk: int|
                                    0 <= jj < j && 0 <= kk < n_mode ==> #[trigger] data@[(off + jj)
                                        * n_mode + kk] == f.modal_disp_to_outputs@[(dofs@[jj] - 1)
                                        * f.n_modes_spec() + kk],
                                forall|kk: int|
                                    0 <= kk < k ==> #[trigger] data@[(off + j) * n_mode + kk]
                                        == f.modal_disp_to_outputs@[(d - 1) * f.n_modes_spec()
                                        + kk],
                                forall|p: int|
                                    0 <= p < pre_data.len() ==> #[trigger] data@[p] == pre_data[p],
                            decreases n_mode - k,
                        {
                            proof {
                                assert((d - 1) * n_modes_total + k < f.n_io.1 * n_modes_total)
                                    by (nonlinear_arith)
                                    requires
                                        1 <= d <= f.n_io.1,
                                        0 <= k < n_mode <= n_modes_total,
                                ;
                                assert(0 <= (d - 1) * n_modes_total) by (nonlinear_arith)
                                    requires
                                        1 <= d,
                                        0 <= n_modes_total,
                                ;
                            }
                            let table_len = f.modal_disp_to_outputs.len();
                            proof {
                                assert((d - 1) * n_modes_total + k < table_len);
                            }
                            let w: u64 = f.modal_disp_to_outputs[((d as usize) - 1) * n_modes_total
                                + k];
                            data.push(w);
                            proof {
                                assert((off + j) * n_mode + k == data@.len() - 1)
                                    by (nonlinear_arith)
                                    requires
                                        data@.len() == off * n_mode + j * n_mode + k + 1,
                                ;
                                assert(0 <= j * n_mode) by (nonlinear_arith)
                                    requires
                                        0 <= j,
                                        0 <= n_mode,
                                ;
                                assert((off + j) * n_mode == off * n_mode + j * n_mode)
                                    by (nonlinear_arith);
                                assert forall|jj: int, kk: int|
                                    0 <= jj < j && 0 <= kk < n_mode implies #[trigger] data@[(off
                                    + jj) * n_mode + kk] == f.modal_disp_to_outputs@[(dofs@[jj]
                                    - 1) * f.n_modes_spec() + kk] by {
                                    assert(0 <= (off + jj) * n_mode + kk < (off + j) * n_mode)
                                        by (nonlinear_arith)
                                        requires
                                            0 <= off,
                                            0 <= jj < j,
                                            0 <= kk < n_mode,
                                    ;
                                }
                            }
                            k = k + 1;
                        }
                        proof {
                            assert(pre_data.len() + (j + 1) * n_mode == pre_data.len() + j * n_mode
                                + n_mode) by (nonlinear_arith);
                        }
                        j = j + 1;
                    }
                    sel.append(&mut dofs);
                },
                Some(bl) => {
                    if bl.cols() != n_modes_total {
                        proof {
                            assert(trs[t as int] matches Some(b2) && b2.cols_spec()
                                != f.n_modes_spec());
                        }
                        return Err(
                            StateSpaceError::Matrix(
                                String::from_str("transform block does not span the modes"),
                            ),
                        );
                    }
                    rows = bl.rows();
                    if rows > usize::MAX - off {
                        return Err(
                            StateSpaceError::Matrix(
                                String::from_str("output selection does not fit"),
                            ),
                        );
                    }
                    let mut j: usize = 0;
                    while j < rows
                        invariant
                            self.fem matches Some(ff2) && ff2 == *f,
                            self.wf(),
                            trs == self.outs_transform@,
                            0 <= t < trs.len(),
                            trs[t as int] matches Some(b2) && b2 == *bl,
                            n_mode <= f.n_modes_spec(),
                            bl.wf(),
                            bl.cols_spec() == n_modes_total,
                            n_mode <= n_modes_total,
                            0 <= j <= rows,
                            rows == bl.rows_spec(),
                            data@.len() == pre_data.len() + j * n_mode,
                            pre_data.len() == off * n_mode,
                            forall|jj: int, k: int|
                                0 <= jj < j && 0 <= k < n_mode ==> #[trigger] data@[(off + jj)
                                    * n_mode + k] == bl.at(jj, k),
                            forall|p: int|
                                0 <= p < pre_data.len() ==> #[trigger] data@[p] == pre_data[p],
                        decreases rows - j,
                    {
                        let mut k: usize = 0;
                        while k < n_mode
                            invariant
                                self.fem matches Some(ff3) && ff3 == *f,
                                self.wf(),
                                trs == self.outs_transform@,
                                0 <= t < trs.len(),
                                trs[t as int] matches Some(b3) && b3 == *bl,
                                bl.wf(),
                                bl.cols_spec() == n_modes_total,
                                n_mode <= n_modes_total,
                                0 <= j < rows,
                                0 <= k <= n_mode,
                                rows == bl.rows_spec(),
                                data@.len() == pre_data.len() + j * n_mode + k,
                                pre_data.len() == off * n_mode,
                                forall|jj: int, kk: int|
                                    0 <= jj < j && 0 <= kk < n_mode ==> #[trigger] data@[(off + jj)
                                        * n_mode + kk] == bl.at(jj, kk),
                                forall|kk: int|
                                    0 <= kk < k ==> #[trigger] data@[(off + j) * n_mode + kk]
                                        == bl.at(j as int, kk),
                                forall|p: int|
                                    0 <= p < pre_data.len() ==> #[trigger] data@[p] == pre_data[p],
                            decreases n_mode - k,
                        {
                            let w = bl.entry(j, k);
                            data.push(w);
                            proof {
                                assert((off + j) * n_mode + k == data@.len() - 1)
                                    by (nonlinear_arith)
                                    requires
                                        data@.len() == off * n_mode + j * n_mode + k + 1,
                                ;
                                assert(0 <= j * n_mode) by (nonlinear_arith)
                                    requires
                                        0 <= j,
                                        0 <= n_mode,
                                ;
                                assert((off + j) * n_mode == off * n_mode + j * n_mode)
                                    by (nonlinear_arith);
                                assert forall|jj: int, kk: int|
                                    0 <= jj < j && 0 <= kk < n_mode implies #[trigger] data@[(off
                                    + jj) * n_mode + kk] == bl.at(jj, kk) by {
                                    assert(0 <= (off + jj) * n_mode + kk < (off + j) * n_mode)
                                        by (nonlinear_arith)
                                        requires
                                            0 <= off,
                                            0 <= jj < j,
                                            0 <= kk < n_mode,
                                    ;
                                }
                            }
                            k = k + 1;
                        }
                        proof {
                            assert(pre_data.len() + (j + 1) * n_mode == pre_data.len() + j * n_mode
                                + n_mode) by (nonlinear_arith);
                        }
                        j = j + 1;
                    }
                },
            }
            let start = off;
            let end = off + rows;
            descs.push(SplitFem { name: name.clone(), start, end });
            off = end;
            proof {
                assert((start + rows) * n_mode == start * n_mode + rows * n_mode)
                    by (nonlinear_arith);
                assert(data@.len() == off * n_mode);
                assert(out_total(groups, names.take(t as int + 1), trs.take(t as int + 1)) == off);
                assert forall|q: int, idq: int|
                    0 <= q < t + 1 && #[trigger] first_group_at(groups, names[q]@, idq)
                    implies match (groups[idq], trs[q]) {
                    (Some(gg), None) => descs@[q].end - descs@[q].start == on_dofs(gg.io@).len()
                        && forall|j: int, k: int|
                        0 <= j < on_dofs(gg.io@).len() && 0 <= k < n_mode
                            ==> #[trigger] data@[(descs@[q].start + j) * n_mode + k]
                            == f.modal_disp_to_outputs@[(on_dofs(gg.io@)[j] - 1)
                            * f.n_modes_spec() + k],
                    (Some(gg), Some(bll)) => descs@[q].end - descs@[q].start == bll.rows_spec()
                        && forall|j: int, k: int|
                        0 <= j < bll.rows_spec() && 0 <= k < n_mode
                            ==> #[trigger] data@[(descs@[q].start + j) * n_mode + k] == bll.at(
                            j,
                            k,
                        ),
                    (None, _) => false,
                } by {
                    if q < t {
                        assert(descs@[q] == pre_descs[q]);
                        lemma_block_preserved(
                            data@,
                            pre_data,
                            descs@[q].start as int,
                            descs@[q].end as int,
                            n_mode as int,
                            start as int,
                        );
                    } else {
                        assert(idq == id);
                    }
                }
                if forall|q: int| 0 <= q < t + 1 ==> (#[trigger] trs[q]) is None {
                    assert(trs[t as int] is None);
                    assert forall|q: int, idq: int|
                        0 <= q < t + 1 && #[trigger] first_group_at(groups, names[q]@, idq)
                        implies match groups[idq] {
                        Some(gg) => sel@.subrange(descs@[q].start as int, descs@[q].end as int)
                            == on_dofs(gg.io@),
                        None => false,
                    } by {
                        if q < t {
                            assert(descs@[q] == pre_descs[q]);
                            assert(sel@.subrange(
                                descs@[q].start as int,
                                descs@[q].end as int,
                            ) =~= pre_sel.subrange(descs@[q].start as int, descs@[q].end as int));
                        } else {
                            assert(idq == id);
                            assert(sel@.subrange(start as int, end as int) =~= on_dofs(g.io@));
                        }
                    }
                }
            }
            t = t + 1;
        }
        proof {
            assert(names.take(names.len() as int) =~= names);
            assert(trs.take(trs.len() as int) =~= trs);
        }
        let c = Mat::new(off, n_mode, data);
        Ok((c, descs, sel))
    }

    /// The working eigen frequencies (Hz, overrides applied), the number of
    /// retained modes, and the damping vector.
    fn properties(&self) -> (r: Result<(Vec<u64>, usize, Vec<u64>), StateSpaceError>)
        requires
            self.wf(),
        ensures
            self.fem is None ==> (r matches Err(StateSpaceError::MissingArguments(m)) && m@
                == "FEM"@),
            match (r, &self.fem) {
                (Ok((w, n, zeta)), Some(f)) => {
                    let ov = match self.eigen_frequencies {
                        Some(o) => o@,
                        None => Seq::empty(),
                    };
                    &&& overrides_ok(ov, f.n_modes_spec())
                    &&& w@ == apply_overrides(f.eigen_frequencies@, ov)
                    &&& n == (match self.max_eigen_frequency {
                        Some(max) => count_le(w@, max),
                        None => f.n_modes_spec(),
                    })
                    &&& n <= f.n_modes_spec()
                    &&& zeta@ == (match self.zeta {
                        Some(z) => Seq::new(n as nat, |k: int| z),
                        None => f.proportional_damping_vec@,
                    })
                },
                (Err(StateSpaceError::Matrix(_)), Some(f)) => {
                    let ov = match self.eigen_frequencies {
                        Some(o) => o@,
                        None => Seq::<(usize, u64)>::empty(),
                    };
                    !overrides_ok(ov, f.n_modes_spec())
                },
                (Err(StateSpaceError::MissingArguments(_)), _) => self.fem is None,
                _ => false,
            },
    {
        if self.fem.is_none() {
            return Err(StateSpaceError::MissingArguments(String::from_str("FEM")));
        }
        let f = self.fem.as_ref().unwrap();
        let n_modes = f.eigen_frequencies.len();
        let mut w: Vec<u64> = Vec::new();
        let mut i: usize = 0;
        while i < n_modes
            invariant
                0 <= i <= n_modes,
                n_modes == f.eigen_frequencies@.len(),
                w@ == f.eigen_frequencies@.take(i as int),
            decreases n_modes - i,
        {
            proof {
                assert(f.eigen_frequencies@.take(i as int + 1) =~= f.eigen_frequencies@.take(
                    i as int,
                ).push(f.eigen_frequencies@[i as int]));
            }
            let x = f.eigen_frequencies[i];
            w.push(x);
            i = i + 1;
        }
        proof {
            assert(f.eigen_frequencies@.take(n_modes as int) =~= f.eigen_frequencies@);
        }
        let ghost ov = match &self.eigen_frequencies {
            Some(o) => o@,
            None => Seq::<(usize, u64)>::empty(),
        };
        proof {
            assert(ov.skip(0) =~= ov);
        }
        match &self.eigen_frequencies {
            Some(o) => {
                let mut t: usize = 0;
                while t < o.len()
                    invariant
                        self.fem matches Some(ff) && ff == *f,
                        self.eigen_frequencies matches Some(oo) && oo == *o,
                        0 <= t <= o@.len(),
                        ov == o@,
                        w@.len() == f.eigen_frequencies@.len(),
                        overrides_ok(ov.take(t as int), f.n_modes_spec()),
                        apply_overrides(w@, ov.skip(t as int)) == apply_overrides(
                            f.eigen_frequencies@,
                            ov,
                        ),
                    decreases o.len() - t,
                {
                    let (idx, v) = o[t];
                    if idx >= w.len() {
                        proof {
                            assert(self.fem is Some);
                            assert(ov[t as int].0 >= f.n_modes_spec());
                            assert(!overrides_ok(ov, f.n_modes_spec()));
                        }
                        return Err(
                            StateSpaceError::Matrix(
                                String::from_str("eigen frequency override out of range"),
                            ),
                        );
                    }
                    proof {
                        assert(ov.skip(t as int)[0] == ov[t as int]);
                        assert(ov.skip(t as int).skip(1) =~= ov.skip(t as int + 1));
                        assert(ov.take(t as int + 1) =~= ov.take(t as int).push(ov[t as int]));
                    }
                    w.set(idx, v);
                    t = t + 1;
                }
                proof {
                    assert(ov.skip(o@.len() as int) =~= Seq::<(usize, u64)>::empty());
                    assert(ov.take(o@.len() as int) =~= ov);
                }
            },
            None => {},
        }
        let n_retained: usize = match &self.max_eigen_frequency {
            Some(max) => {
                let max = *max;
                let mut n: usize = 0;
                let mut k: usize = 0;
                while k < w.len()
                    invariant
                        0 <= k <= w@.len(),
                        n == count_le(w@.take(k as int), max),
                        n <= k,
                    decreases w.len() - k,
                {
                    proof {
                        lemma_count_le_snoc(w@, max, k as int);
                    }
                    if w[k] <= max {
                        n = n + 1;
                    }
                    k = k + 1;
                }
                proof {
                    assert(w@.take(w@.len() as int) =~= w@);
                }
                n
            },
            None => w.len(),
        };
        proof {
            lemma_apply_overrides_len(f.eigen_frequencies@, ov);
            if self.max_eigen_frequency is Some {
                lemma_count_le_bound(w@, self.max_eigen_frequency.unwrap());
            }
        }
        let zeta: Vec<u64> = match &self.zeta {
            Some(z) => {
                let z = *z;
                let mut v: Vec<u64> = Vec::new();
                let mut k: usize = 0;
                while k < n_retained
                    invariant
                        0 <= k <= n_retained,
                        v@.len() == k,
                        forall|q: int| 0 <= q < k ==> v@[q] == z,
                    decreases n_retained - k,
                {
                    v.push(z);
                    k = k + 1;
                }
                proof {
                    assert(v@ =~= Seq::new(n_retained as nat, |k: int| z));
                }
                v
            },
            None => {
                let mut v: Vec<u64> = Vec::new();
                let mut k: usize = 0;
                let n = f.proportional_damping_vec.len();
                while k < n
                    invariant
                        0 <= k <= n,
                        n == f.proportional_damping_vec@.len(),
                        v@ == f.proportional_damping_vec@.take(k as int),
                    decreases n - k,
                {
                    proof {
                        assert(f.proportional_damping_vec@.take(k as int + 1)
                            =~= f.proportional_damping_vec@.take(k as int).push(
                            f.proportional_damping_vec@[k as int],
                        ));
                    }
                    let x = f.proportional_damping_vec[k];
                    v.push(x);
                    k = k + 1;
                }
                proof {
                    assert(f.proportional_damping_vec@.take(n as int)
                        =~= f.proportional_damping_vec@);
                }
                v
            },
        };
        Ok((w, n_retained, zeta))
    }
}

impl DiscreteModalSolver {
    /// The builder that turns the model into a solver.
    pub fn from_fem(fem: FEM) -> (r: DiscreteStateSpace)
        ensures
            r.fem matches Some(f) && f == fem,
            r.sampling is None,
            r.zeta is None,
            r.eigen_frequencies is None,
            r.max_eigen_frequency is None,
            r.hankel_singular_values_threshold is None,
            r.n_io is None,
            r.ins@.len() == 0,
            r.outs@.len() == 0,
            r.outs_transform@.len() == 0,
            fem.wf() ==> r.wf(),
    {
        DiscreteStateSpace::from_fem(fem)
    }
}

/// The override list a configuration holds, empty when none was given.
pub open spec fn overrides_of(c: &DiscreteStateSpace) -> Seq<(usize, u64)> {
    match c.eigen_frequencies {
        Some(o) => o@,
        None => Seq::empty(),
    }
}

/// Everything `build` demands of the configuration: a sampling rate, a
/// model, overrides addressing existing modes, every selected group present,
/// transform blocks spanning the modes, sizes that fit the machine, a
/// non-empty selection on both sides, and a consistent static-gain request.
pub open spec fn buildable(c: DiscreteStateSpace) -> bool {
    &&& c.sampling is Some
    &&& match c.fem {
        Some(f) => {
            let ov = match c.eigen_frequencies {
                Some(o) => o@,
                None => Seq::<(usize, u64)>::empty(),
            };
            &&& overrides_ok(ov, f.n_modes_spec())
            &&& forall|t: int|
                0 <= t < c.ins@.len() ==> has_group(f.inputs@, (#[trigger] c.ins@[t])@)
            &&& forall|t: int|
                0 <= t < c.outs@.len() ==> has_group(f.outputs@, (#[trigger] c.outs@[t])@)
            &&& forall|t: int|
                0 <= t < c.outs@.len() ==> match #[trigger] c.outs_transform@[t] {
                    Some(bl) => bl.cols_spec() == f.n_modes_spec(),
                    None => true,
                }
            &&& out_total(f.outputs@, c.outs@, c.outs_transform@) <= usize::MAX
            &&& in_total(f.inputs@, c.ins@) > 0
            &&& out_total(f.outputs@, c.outs@, c.outs_transform@) > 0
            &&& match c.n_io {
                Some(nio) => f.static_gain is Some && nio == f.n_io && forall|t: int|
                    0 <= t < c.outs@.len() ==> (#[trigger] c.outs_transform@[t]) is None,
                None => true,
            }
        },
        None => false,
    }
}

/// The number of modes `build` retains.
pub open spec fn retained_count(c: DiscreteStateSpace) -> nat {
    match c.fem {
        Some(f) => {
            let ov = match c.eigen_frequencies {
                Some(o) => o@,
                None => Seq::<(usize, u64)>::empty(),
            };
            let w = apply_overrides(f.eigen_frequencies@, ov);
            match c.max_eigen_frequency {
                Some(max) => count_le(w, max),
                None => f.n_modes_spec(),
            }
        },
        None => 0,
    }
}

/// What the solver that `build` yields looks like: sizes, ranges, zeroed
/// state, the per-mode data drawn from the model through the selected
/// groups, and the trimmed static gain when compensation was requested.
pub open spec fn built(c: DiscreteStateSpace, s: DiscreteModalSolver) -> bool {
    match c.fem {
        Some(f) => {
            let ov = match c.eigen_frequencies {
                Some(o) => o@,
                None => Seq::<(usize, u64)>::empty(),
            };
            let w = apply_overrides(f.eigen_frequencies@, ov);
            let n_retained = retained_count(c);
            &&& s.wf()
            &&& s.sampling_rate == c.sampling.unwrap()
            &&& s.hsv_threshold == c.hankel_singular_values_threshold
            &&& s.psi_dcg is None
            &&& s.u@.len() == in_total(f.inputs@, c.ins@)
            &&& s.y@.len() == out_total(f.outputs@, c.outs@, c.outs_transform@)
            &&& forall|i: int| 0 <= i < s.u@.len() ==> s.u@[i] == 0u64
            &&& forall|i: int| 0 <= i < s.y@.len() ==> s.y@[i] == 0u64
            &&& forall|i: int| 0 <= i < s.psi_times_u@.len() ==> s.psi_times_u@[i] == 0u64
            &&& s.ins@.len() == c.ins@.len()
            &&& s.outs@.len() == c.outs@.len()
            &&& forall|t: int| 0 <= t < s.ins@.len() ==> (#[trigger] s.ins@[t]).name == c.ins@[t]
            &&& forall|t: int| 0 <= t < s.outs@.len() ==> (#[trigger] s.outs@[t]).name == c.outs@[t]
            &&& s.state_space@.len() == n_retained
            &&& forall|k: int|
                0 <= k < s.state_space@.len() ==> {
                    let m = #[trigger] s.state_space@[k];
                    &&& m.omega_hz == w[k]
                    &&& m.zeta == (match c.zeta {
                        Some(z) => z,
                        None => f.proportional_damping_vec@[k],
                    })
                    &&& m.tau == 0u64
                    &&& m.phi == (0u64, 0u64, 0u64, 0u64)
                    &&& m.gamma == (0u64, 0u64)
                    &&& m.x == (0u64, 0u64)
                    &&& m.b@.len() == s.u@.len()
                    &&& m.c@.len() == s.y@.len()
                    &&& m.y@.len() == s.y@.len()
                    &&& forall|j: int| 0 <= j < m.y@.len() ==> m.y@[j] == 0u64
                }
            &&& forall|t: int, id: int|
                0 <= t < c.ins@.len() && #[trigger] first_group_at(f.inputs@, c.ins@[t]@, id)
                    ==> match f.inputs@[id] {
                    Some(g) => s.ins@[t].end - s.ins@[t].start == on_dofs(g.io@).len() && forall|
                        k: int,
                        j: int,
                    |
                        0 <= k < s.state_space@.len() && 0 <= j < on_dofs(g.io@).len()
                            ==> #[trigger] s.state_space@[k].b@[s.ins@[t].start + j]
                            == f.inputs_to_modal_forces@[k * f.n_io.0 + on_dofs(g.io@)[j] - 1],
                    None => false,
                }
            &&& forall|t: int, id: int|
                0 <= t < c.outs@.len() && #[trigger] first_group_at(f.outputs@, c.outs@[t]@, id)
                    ==> match (f.outputs@[id], c.outs_transform@[t]) {
                    (Some(g), None) => s.outs@[t].end - s.outs@[t].start == on_dofs(g.io@).len()
                        && forall|k: int, j: int|
                        0 <= k < s.state_space@.len() && 0 <= j < on_dofs(g.io@).len()
                            ==> #[trigger] s.state_space@[k].c@[s.outs@[t].start + j]
                            == f.modal_disp_to_outputs@[(on_dofs(g.io@)[j] - 1) * f.n_modes_spec()
                            + k],
                    (Some(g), Some(bl)) => s.outs@[t].end - s.outs@[t].start == bl.rows_spec()
                        && forall|k: int, j: int|
                        0 <= k < s.state_space@.len() && 0 <= j < bl.rows_spec()
                            ==> #[trigger] s.state_space@[k].c@[s.outs@[t].start + j] == bl.at(
                            j,
                            k,
                        ),
                    (None, _) => false,
                }
            &&& match c.n_io {
                Some(nio) => s.static_gain matches Some(sg) && match f.static_gain {
                    Some(gain) => {
                        &&& sg.wf()
                        &&& sg.rows_spec() == s.y@.len()
                        &&& sg.cols_spec() == s.u@.len()
                        &&& forall|ti: int, idi: int, to: int, ido: int|
                            0 <= ti < c.ins@.len() && 0 <= to < c.outs@.len()
                                && #[trigger] first_group_at(f.inputs@, c.ins@[ti]@, idi)
                                && #[trigger] first_group_at(f.outputs@, c.outs@[to]@, ido)
                                ==> match (f.inputs@[idi], f.outputs@[ido]) {
                                (Some(gi), Some(go)) => forall|i: int, o: int|
                                    0 <= i < on_dofs(gi.io@).len() && 0 <= o < on_dofs(
                                        go.io@,
                                    ).len() ==> #[trigger] sg.at(
                                        s.outs@[to].start + o,
                                        s.ins@[ti].start + i,
                                    ) == gain@[(on_dofs(go.io@)[o] - 1) * f.n_io.0 + on_dofs(
                                        gi.io@,
                                    )[i] - 1],
                                _ => false,
                            }
                    },
                    None => false,
                },
                None => s.static_gain is None,
            }
        },
        None => false,
    }
}

impl DiscreteStateSpace {
    /// Trims a full-size matrix, given row-major with one column per model
    /// input and one row per model output, to the gathered global indices of
    /// the selected groups.
    fn reduce2io(&self, gain: &Vec<u64>, in_sel: &Vec<u32>, out_sel: &Vec<u32>) -> (r: Mat)
        requires
            self.fem matches Some(f) && f.wf() && gain@.len() == f.n_io.1 * f.n_io.0 && (forall|
                x: int,
            | 0 <= x < in_sel@.len() ==> 1 <= #[trigger] in_sel@[x] <= f.n_io.0) && (forall|x: int|
                0 <= x < out_sel@.len() ==> 1 <= #[trigger] out_sel@[x] <= f.n_io.1),
        ensures
            match &self.fem {
                Some(f) => {
                    &&& r.wf()
                    &&& r.rows_spec() == out_sel@.len()
                    &&& r.cols_spec() == in_sel@.len()
                    &&& forall|o: int, i: int|
                        0 <= o < out_sel@.len() && 0 <= i < in_sel@.len() ==> #[trigger] r.at(o, i)
                            == gain@[(out_sel@[o] - 1) * f.n_io.0 + in_sel@[i] - 1]
                },
                None => false,
            },
    {
        let f = self.fem.as_ref().unwrap();
        let reduced = crate::fem::gather_columns(gain, f.n_io.1, f.n_io.0, in_sel);
        let lin = in_sel.len();
        let fin = crate::fem::gather_rows(&reduced, f.n_io.1, lin, out_sel);
        let m = Mat::new(out_sel.len(), lin, fin);
        proof {
            assert forall|o: int, i: int|
                0 <= o < out_sel@.len() && 0 <= i < lin implies #[trigger] m.at(o, i) == gain@[(
            out_sel@[o] - 1) * f.n_io.0 + in_sel@[i] - 1] by {
                assert(0 <= o * lin) by (nonlinear_arith)
                    requires
                        0 <= o,
                        0 <= lin,
                ;
                assert(o * lin + i < out_sel@.len() * lin) by (nonlinear_arith)
                    requires
                        0 <= o < out_sel@.len(),
                        0 <= i < lin,
                ;
                assert(m.at(o, i) == fin@[o * lin + i]);
                assert(fin@[o * lin + i] == reduced@[(out_sel@[o] - 1) * lin + i]);
                assert(reduced@[(out_sel@[o] - 1) * lin + i] == gain@[(out_sel@[o] - 1) * f.n_io.0
                    + in_sel@[i] - 1]);
            }
        }
        m
    }

    /// Builds the discrete modal solver: assembles the reduced matrices from
    /// the selected groups, instantiates one mode per retained eigen
    /// frequency, and trims the static gain when compensation is requested.
    /// The modes await their discretization; a pending Hankel truncation is
    /// recorded on the solver.
    pub fn build(self) -> (r: Result<DiscreteModalSolver, StateSpaceError>)
        requires
            self.wf(),
        ensures
            self.sampling is None ==> (r matches Err(StateSpaceError::MissingArguments(m)) && m@
                == "sampling"@),
            self.sampling is Some && self.fem is None ==> (r matches Err(
                StateSpaceError::MissingArguments(m),
            ) && m@ == "FEM"@),
            r is Ok <==> buildable(self),
            r matches Ok(s) ==> built(self, s),
            r matches Err(StateSpaceError::MissingArguments(m)) ==> (m@ == "sampling"@ || m@
                == "FEM"@ || m@ == "static gain"@ || (self.fem matches Some(f) && ((exists|t: int|
                0 <= t < self.ins@.len() && m == #[trigger] self.ins@[t] && !has_group(
                    f.inputs@,
                    self.ins@[t]@,
                )) || (exists|t: int|
                0 <= t < self.outs@.len() && m == #[trigger] self.outs@[t] && !has_group(
                    f.outputs@,
                    self.outs@[t]@,
                ))))),
            match &self.fem {
                Some(f) => (self.sampling is Some && overrides_ok(
                    overrides_of(&self),
                    f.n_modes_spec(),
                ) && (exists|t: int|
                    0 <= t < self.ins@.len() && !has_group(
                        f.inputs@,
                        (#[trigger] self.ins@[t])@,
                    ))) ==> (r matches Err(StateSpaceError::MissingArguments(m)) && exists|t: int|
                    0 <= t < self.ins@.len() && m == #[trigger] self.ins@[t] && !has_group(
                        f.inputs@,
                        self.ins@[t]@,
                    )),
                None => true,
            },
            match &self.fem {
                Some(f) => (self.sampling is Some && overrides_ok(
                    overrides_of(&self),
                    f.n_modes_spec(),
                ) && (forall|t: int|
                    0 <= t < self.ins@.len() ==> has_group(f.inputs@, (#[trigger] self.ins@[t])@))
                    && (forall|t: int|
                    0 <= t < self.outs@.len() ==> match #[trigger] self.outs_transform@[t] {
                        Some(bl) => bl.cols_spec() == f.n_modes_spec(),
                        None => true,
                    }) && out_total(f.outputs@, self.outs@, self.outs_transform@) <= usize::MAX
                    && (exists|t: int|
                    0 <= t < self.outs@.len() && !has_group(
                        f.outputs@,
                        (#[trigger] self.outs@[t])@,
                    ))) ==> (r matches Err(StateSpaceError::MissingArguments(m)) && exists|t: int|
                    0 <= t < self.outs@.len() && m == #[trigger] self.outs@[t] && !has_group(
                        f.outputs@,
                        self.outs@[t]@,
                    )),
                None => true,
            },
            match &self.fem {
                Some(f) => (self.sampling is Some && overrides_ok(
                    overrides_of(&self),
                    f.n_modes_spec(),
                ) && (forall|t: int|
                    0 <= t < self.ins@.len() ==> has_group(f.inputs@, (#[trigger] self.ins@[t])@))
                    && (forall|t: int|
                    0 <= t < self.outs@.len() ==> has_group(
                        f.outputs@,
                        (#[trigger] self.outs@[t])@,
                    )) && (forall|t: int|
                    0 <= t < self.outs@.len() ==> match #[trigger] self.outs_transform@[t] {
                        Some(bl) => bl.cols_spec() == f.n_modes_spec(),
                        None => true,
                    }) && out_total(f.outputs@, self.outs@, self.outs_transform@) <= usize::MAX
                    && in_total(f.inputs@, self.ins@) > 0 && out_total(
                    f.outputs@,
                    self.outs@,
                    self.outs_transform@,
                ) > 0 && self.n_io is Some && f.static_gain is None) ==> (r matches Err(
                    StateSpaceError::MissingArguments(m),
                ) && m@ == "static gain"@),
                None => true,
            },
    {
        let rate: u64 = match &self.sampling {
            Some(s) => *s,
            None => {
                return Err(StateSpaceError::MissingArguments(String::from_str("sampling")));
            },
        };
        let (w, n_retained, zeta_vec) = match self.properties() {
            Ok(p) => p,
            Err(e) => {
                return Err(e);
            },
        };
        let f = self.fem.as_ref().unwrap();
        proof {
            let ov = match &self.eigen_frequencies {
                Some(o) => o@,
                None => Seq::<(usize, u64)>::empty(),
            };
            lemma_apply_overrides_len(f.eigen_frequencies@, ov);
        }
        let (b, ins_descs, in_sel) = match self.in2mode(n_retained) {
            Ok(p) => p,
            Err(e) => {
                return Err(e);
            },
        };
        let (c, outs_descs, out_sel) = match self.mode2out(n_retained) {
            Ok(p) => p,
            Err(e) => {
                return Err(e);
            },
        };
        if b.cols() == 0 || c.rows() == 0 {
            return Err(
                StateSpaceError::Matrix(
                    String::from_str("the input and output selections must both be non-empty"),
                ),
            );
        }
        let static_gain: Option<Mat> = match &self.n_io {
            Some(nio) => {
                let gain = match &f.static_gain {
                    Some(gain) => gain,
                    None => {
                        return Err(
                            StateSpaceError::MissingArguments(String::from_str("static gain")),
                        );
                    },
                };
                if nio.0 != f.n_io.0 || nio.1 != f.n_io.1 {
                    return Err(
                        StateSpaceError::Matrix(
                            String::from_str("static gain totals do not match the model"),
                        ),
                    );
                }
                let mut t: usize = 0;
                while t < self.outs_transform.len()
                    invariant
                        self.sampling is Some,
                        self.fem matches Some(ff) && ff == *f,
                        self.n_io is Some,
                        self.wf(),
                        self.outs_transform@.len() == self.outs@.len(),
                        f.static_gain is Some,
                        forall|q: int|
                            0 <= q < self.ins@.len() ==> has_group(
                                f.inputs@,
                                (#[trigger] self.ins@[q])@,
                            ),
                        forall|q: int|
                            0 <= q < self.outs@.len() ==> has_group(
                                f.outputs@,
                                (#[trigger] self.outs@[q])@,
                            ),
                        forall|q: int|
                            0 <= q < self.outs@.len() ==> match #[trigger] self.outs_transform@[q] {
                                Some(bl) => bl.cols_spec() == f.n_modes_spec(),
                                None => true,
                            },
                        out_total(f.outputs@, self.outs@, self.outs_transform@) <= usize::MAX,
                        0 <= t <= self.outs_transform@.len(),
                        forall|q: int|
                            0 <= q < t ==> (#[trigger] self.outs_transform@[q]) is None,
                    decreases self.outs_transform.len() - t,
                {
                    if self.outs_transform[t].is_some() {
                        proof {
                            assert(0 <= t < self.outs@.len());
                            assert(!((self.outs_transform@[t as int]) is None));
                            assert(!buildable(self));
                        }
                        return Err(
                            StateSpaceError::Matrix(
                                String::from_str(
                                    "static gain compensation takes no transformed outputs",
                                ),
                            ),
                        );
                    }
                    t = t + 1;
                }
                let sg = self.reduce2io(gain, &in_sel, &out_sel);
                Some(sg)
            },
            None => None,
        };
        let mut modes: Vec<Exponential> = Vec::new();
        let zeta_is_override = self.zeta.is_some();
        let mut k: usize = 0;
        while k < n_retained
            invariant
                self.fem matches Some(ff) && ff == *f,
                0 <= k <= n_retained,
                n_retained <= w@.len(),
                zeta_is_override ==> zeta_vec@.len() == n_retained,
                !zeta_is_override ==> zeta_vec@.len() >= n_retained,
                b.wf(),
                c.wf(),
                b.rows_spec() == n_retained,
                c.cols_spec() == n_retained,
                modes@.len() == k,
                forall|q: int|
                    0 <= q < k ==> {
                        let m = #[trigger] modes@[q];
                        &&& m.omega_hz == w@[q]
                        &&& m.zeta == zeta_vec@[q]
                        &&& m.tau == 0u64
                        &&& m.phi == (0u64, 0u64, 0u64, 0u64)
                        &&& m.gamma == (0u64, 0u64)
                        &&& m.x == (0u64, 0u64)
                        &&& m.b@.len() == b.cols_spec()
                        &&& m.c@.len() == c.rows_spec()
                        &&& m.y@.len() == c.rows_spec()
                        &&& forall|j: int| 0 <= j < m.y@.len() ==> m.y@[j] == 0u64
                        &&& forall|j: int| 0 <= j < b.cols_spec() ==> m.b@[j] == b.at(q, j)
                        &&& forall|j: int| 0 <= j < c.rows_spec() ==> m.c@[j] == c.at(j, q)
                    },
            decreases n_retained - k,
        {
            let b_row = b.row(k);
            let c_col = c.column(k);
            let zk: u64 = zeta_vec[k];
            let wk: u64 = w[k];
            let m = Exponential::from_modal(wk, zk, b_row, c_col);
            modes.push(m);
            k = k + 1;
        }
        let u = crate::solver::zero_words(b.cols());
        let y = crate::solver::zero_words(c.rows());
        let ptu = crate::solver::zero_words(c.rows());
        let solver = DiscreteModalSolver {
            u,
            y,
            state_space: modes,
            psi_dcg: None,
            psi_times_u: ptu,
            ins: ins_descs,
            outs: outs_descs,
            static_gain,
            hsv_threshold: self.hankel_singular_values_threshold,
            sampling_rate: rate,
        };
        proof {
            assert forall|t: int, id: int|
                0 <= t < self.ins@.len() && #[trigger] first_group_at(f.inputs@, self.ins@[t]@, id)
                implies match f.inputs@[id] {
                Some(g) => solver.ins@[t].end - solver.ins@[t].start == on_dofs(g.io@).len()
                    && forall|k: int, j: int|
                    0 <= k < solver.state_space@.len() && 0 <= j < on_dofs(g.io@).len()
                        ==> #[trigger] solver.state_space@[k].b@[solver.ins@[t].start + j]
                        == f.inputs_to_modal_forces@[k * f.n_io.0 + on_dofs(g.io@)[j] - 1],
                None => false,
            } by {
                match f.inputs@[id] {
                    Some(g) => {
                        assert forall|k: int, j: int|
                            0 <= k < solver.state_space@.len() && 0 <= j < on_dofs(g.io@).len()
                            implies #[trigger] solver.state_space@[k].b@[solver.ins@[t].start + j]
                            == f.inputs_to_modal_forces@[k * f.n_io.0 + on_dofs(g.io@)[j] - 1] by {
                            let q = solver.ins@[t].start + j;
                            assert(in_sel@.subrange(
                                solver.ins@[t].start as int,
                                solver.ins@[t].end as int,
                            )[j] == on_dofs(g.io@)[j]);
                            assert(in_sel@[q] == on_dofs(g.io@)[j]);
                            assert(solver.state_space@[k].b@[q] == b.at(k, q));
                        }
                    },
                    None => {},
                }
            }
            assert forall|t: int, id: int|
                0 <= t < self.outs@.len() && #[trigger] first_group_at(
                    f.outputs@,
                    self.outs@[t]@,
                    id,
                ) implies match (f.outputs@[id], self.outs_transform@[t]) {
                (Some(g), None) => solver.outs@[t].end - solver.outs@[t].start == on_dofs(
                    g.io@,
                ).len() && forall|k: int, j: int|
                    0 <= k < solver.state_space@.len() && 0 <= j < on_dofs(g.io@).len()
                        ==> #[trigger] solver.state_space@[k].c@[solver.outs@[t].start + j]
                        == f.modal_disp_to_outputs@[(on_dofs(g.io@)[j] - 1) * f.n_modes_spec()
                        + k],
                (Some(g), Some(bl)) => solver.outs@[t].end - solver.outs@[t].start
                    == bl.rows_spec() && forall|k: int, j: int|
                    0 <= k < solver.state_space@.len() && 0 <= j < bl.rows_spec()
                        ==> #[trigger] solver.state_space@[k].c@[solver.outs@[t].start + j]
                        == bl.at(j, k),
                (None, _) => false,
            } by {
                match (f.outputs@[id], self.outs_transform@[t]) {
                    (Some(g), None) => {
                        assert forall|k: int, j: int|
                            0 <= k < solver.state_space@.len() && 0 <= j < on_dofs(g.io@).len()
                            implies #[trigger] solver.state_space@[k].c@[solver.outs@[t].start + j]
                            == f.modal_disp_to_outputs@[(on_dofs(g.io@)[j] - 1) * f.n_modes_spec()
                            + k] by {
                            let q = solver.outs@[t].start + j;
                            assert(solver.state_space@[k].c@[q] == c.at(q, k));
                        }
                    },
                    (Some(g), Some(bl)) => {
                        assert forall|k: int, j: int|
                            0 <= k < solver.state_space@.len() && 0 <= j < bl.rows_spec()
                            implies #[trigger] solver.state_space@[k].c@[solver.outs@[t].start + j]
                            == bl.at(j, k) by {
                            let q = solver.outs@[t].start + j;
                            assert(solver.state_space@[k].c@[q] == c.at(q, k));
                        }
                    },
                    _ => {},
                }
            }
            match (&self.n_io, &solver.static_gain, &f.static_gain) {
                (Some(nio), Some(sg), Some(gain)) => {
                    assert forall|ti: int, idi: int, to: int, ido: int|
                        0 <= ti < self.ins@.len() && 0 <= to < self.outs@.len()
                            && #[trigger] first_group_at(f.inputs@, self.ins@[ti]@, idi)
                            && #[trigger] first_group_at(f.outputs@, self.outs@[to]@, ido)
                        implies match (f.inputs@[idi], f.outputs@[ido]) {
                        (Some(gi), Some(go)) => forall|i: int, o: int|
                            0 <= i < on_dofs(gi.io@).len() && 0 <= o < on_dofs(go.io@).len()
                                ==> #[trigger] sg.at(
                                    solver.outs@[to].start + o,
                                    solver.ins@[ti].start + i,
                                ) == gain@[(on_dofs(go.io@)[o] - 1) * f.n_io.0 + on_dofs(
                                gi.io@,
                            )[i] - 1],
                        _ => false,
                    } by {
                        match (f.inputs@[idi], f.outputs@[ido]) {
                            (Some(gi), Some(go)) => {
                                assert forall|i: int, o: int|
                                    0 <= i < on_dofs(gi.io@).len() && 0 <= o < on_dofs(
                                        go.io@,
                                    ).len() implies #[trigger] sg.at(
                                        solver.outs@[to].start + o,
                                        solver.ins@[ti].start + i,
                                    ) == gain@[(on_dofs(go.io@)[o] - 1) * f.n_io.0 + on_dofs(
                                    gi.io@,
                                )[i] - 1] by {
                                    let qi = solver.ins@[ti].start + i;
                                    let qo = solver.outs@[to].start + o;
                                    assert(in_sel@.subrange(
                                        solver.ins@[ti].start as int,
                                        solver.ins@[ti].end as int,
                                    )[i] == on_dofs(gi.io@)[i]);
                                    assert(in_sel@[qi] == on_dofs(gi.io@)[i]);
                                    assert(out_sel@.subrange(
                                        solver.outs@[to].start as int,
                                        solver.outs@[to].end as int,
                                    )[o] == on_dofs(go.io@)[o]);
                                    assert(out_sel@[qo] == on_dofs(go.io@)[o]);
                                }
                            },
                            _ => {},
                        }
                    }
                },
                _ => {},
            }
        }
        Ok(solver)
    }
}

} // verus!
