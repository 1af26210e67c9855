//! Enabling and disabling degrees of freedom, group by group.

use vstd::prelude::*;

verus! {

use crate::error::FemError;
use crate::fem::{FEM, contains_usize, first_group_at, has_group};
use crate::io::{GroupIo, IO, IOData};

/// A two-way switch for degrees of freedom.
#[derive(Debug, Clone, Copy)]
pub enum Switch {
    On,
    Off,
}

/// The degree of freedom with its state forced by the switch.
pub open spec fn switched(x: IO, sw: Switch) -> IO {
    match sw {
        Switch::On => IO::On(x.data_spec()),
        Switch::Off => IO::Off(x.data_spec()),
    }
}

/// How a group changes when every degree of freedom is forced by the switch.
pub open spec fn group_switched(oldg: Option<GroupIo>, newg: Option<GroupIo>, sw: Switch) -> bool {
    match (oldg, newg) {
        (Some(a), Some(b)) => {
            &&& b.name == a.name
            &&& b.io@.len() == a.io@.len()
            &&& forall|j: int| 0 <= j < a.io@.len() ==> #[trigger] b.io@[j] == switched(a.io@[j], sw)
        },
        (None, None) => true,
        _ => false,
    }
}

/// How one degree of freedom changes when it is first disabled and then
/// re-enabled exactly when its payload satisfies the predicate.
pub open spec fn repicked<F: Fn(&IOData) -> bool>(x: IO, y: IO, pred: F) -> bool {
    &&& y.data_spec() == x.data_spec()
    &&& (y.is_on_spec() ==> call_ensures(pred, (&x.data_spec(),), true))
    &&& (!y.is_on_spec() ==> call_ensures(pred, (&x.data_spec(),), false))
}

/// How a group changes when every degree of freedom is re-picked by the
/// predicate.
pub open spec fn group_repicked<F: Fn(&IOData) -> bool>(
    oldg: Option<GroupIo>,
    newg: Option<GroupIo>,
    pred: F,
) -> bool {
    match (oldg, newg) {
        (Some(a), Some(b)) => {
            &&& b.name == a.name
            &&& b.io@.len() == a.io@.len()
            &&& forall|j: int| 0 <= j < a.io@.len() ==> repicked(a.io@[j], #[trigger] b.io@[j], pred)
        },
        (None, None) => true,
        _ => false,
    }
}

/// Reverses a vector of degrees of freedom.
fn reverse_ios(v: Vec<IO>) -> (r: Vec<IO>)
    ensures
        r@.len() == v@.len(),
        forall|j: int| 0 <= j < v@.len() ==> #[trigger] r@[j] == v@[v@.len() - 1 - j],
{
    let ghost orig = v@;
    let mut v = v;
    let mut out: Vec<IO> = Vec::new();
    while v.len() > 0
        invariant
            v@ == orig.take(v@.len() as int),
            out@.len() + v@.len() == orig.len(),
            forall|j: int| 0 <= j < out@.len() ==> #[trigger] out@[j] == orig[orig.len() - 1 - j],
        decreases v.len(),
    {
        let x = v.pop().unwrap();
        proof {
            assert(orig.take(v@.len() as int + 1).drop_last() =~= orig.take(v@.len() as int));
        }
        out.push(x);
    }
    out
}

/// Forces the state of every degree of freedom of the group.
fn switch_group(g: GroupIo, sw: Switch) -> (r: GroupIo)
    ensures
        group_switched(Some(g), Some(r), sw),
{
    let GroupIo { name, io } = g;
    let ghost orig = io@;
    let mut rev = reverse_ios(io);
    let mut out: Vec<IO> = Vec::new();
    while rev.len() > 0
        invariant
            rev@.len() + out@.len() == orig.len(),
            forall|j: int|
                0 <= j < rev@.len() ==> #[trigger] rev@[j] == orig[orig.len() - 1 - j],
            forall|j: int| 0 <= j < out@.len() ==> #[trigger] out@[j] == switched(orig[j], sw),
        decreases rev.len(),
    {
        let x = rev.pop().unwrap();
        let y = match sw {
            Switch::On => x.switch_on(),
            Switch::Off => x.switch_off(),
        };
        out.push(y);
    }
    GroupIo { name, io: out }
}

/// Disables every degree of freedom of the group, then re-enables those whose
/// payload satisfies the predicate.
fn repick_group<F: Fn(&IOData) -> bool>(g: GroupIo, pred: &F) -> (r: GroupIo)
    requires
        forall|d: &IOData| #[trigger] call_requires(*pred, (d,)),
    ensures
        group_repicked(Some(g), Some(r), *pred),
{
    let GroupIo { name, io } = g;
    let ghost orig = io@;
    let mut rev = reverse_ios(io);
    let mut out: Vec<IO> = Vec::new();
    while rev.len() > 0
        invariant
            forall|d: &IOData| #[trigger] call_requires(*pred, (d,)),
            rev@.len() + out@.len() == orig.len(),
            forall|j: int|
                0 <= j < rev@.len() ==> #[trigger] rev@[j] == orig[orig.len() - 1 - j],
            forall|j: int| 0 <= j < out@.len() ==> repicked(orig[j], #[trigger] out@[j], *pred),
        decreases rev.len(),
    {
        let x = rev.pop().unwrap();
        let y = x.switch_off().switch_on_by(pred);
        out.push(y);
    }
    GroupIo { name, io: out }
}

/// How many leading names of the list all address a present group.
pub open spec fn known_prefix(groups: Seq<Option<GroupIo>>, names: Seq<String>) -> int
    decreases names.len(),
{
    if names.len() == 0 {
        0
    } else if has_group(groups, names[0]@) {
        1 + known_prefix(groups, names.skip(1))
    } else {
        0
    }
}

/// Which names have groups settles the prefix length.
pub proof fn lemma_known_prefix(groups: Seq<Option<GroupIo>>, names: Seq<String>, n: int)
    requires
        0 <= n <= names.len(),
        forall|j: int| 0 <= j < n ==> has_group(groups, (#[trigger] names[j])@),
        n < names.len() ==> !has_group(groups, names[n]@),
    ensures
        known_prefix(groups, names) == n,
    decreases names.len(),
{
    if names.len() == 0 {
    } else if n == 0 {
    } else {
        assert(has_group(groups, names[0]@));
        assert forall|j: int| 0 <= j < n - 1 implies has_group(
            groups,
            (#[trigger] names.skip(1)[j])@,
        ) by {
            assert(names.skip(1)[j] == names[j + 1]);
        }
        if n - 1 < names.skip(1).len() {
            assert(names.skip(1)[n - 1] == names[n]);
        }
        lemma_known_prefix(groups, names.skip(1), n - 1);
    }
}

/// Whether position `k` holds the first group of one of the first `upto`
/// names of the list.
pub open spec fn switched_by_names(
    groups: Seq<Option<GroupIo>>,
    names: Seq<String>,
    upto: int,
    k: int,
) -> bool {
    exists|n: int| 0 <= n < upto && #[trigger] first_group_at(groups, names[n]@, k)
}

/// Forcing a group's switch twice is forcing it once.
pub proof fn lemma_group_switched_twice(
    a: Option<GroupIo>,
    b: Option<GroupIo>,
    c: Option<GroupIo>,
    sw: Switch,
)
    requires
        group_switched(a, b, sw),
        group_switched(b, c, sw),
    ensures
        group_switched(a, c, sw),
{
    match (a, b, c) {
        (Some(x), Some(y), Some(z)) => {
            assert forall|j: int| 0 <= j < x.io@.len() implies #[trigger] z.io@[j] == switched(
                x.io@[j],
                sw,
            ) by {
                assert(y.io@[j] == switched(x.io@[j], sw));
                assert(z.io@[j] == switched(y.io@[j], sw));
            }
        },
        _ => {},
    }
}

/// A vector whose groups are switched or unchanged keeps every group's
/// presence and name, so lookups by name agree with the original vector.
pub proof fn lemma_lookup_preserved(
    orig: Seq<Option<GroupIo>>,
    cur: Seq<Option<GroupIo>>,
    names: Seq<String>,
    upto: int,
    sw: Switch,
    name: Seq<char>,
)
    requires
        orig.len() == cur.len(),
        forall|k: int|
            0 <= k < orig.len() ==> if switched_by_names(orig, names, upto, k) {
                group_switched(orig[k], #[trigger] cur[k], sw)
            } else {
                cur[k] == orig[k]
            },
    ensures
        forall|k: int|
            0 <= k < orig.len() ==> (crate::fem::group_named(#[trigger] cur[k], name)
                <==> crate::fem::group_named(orig[k], name)),
        forall|k: int| #![trigger first_group_at(cur, name, k)] #![trigger first_group_at(orig, name, k)]
            first_group_at(cur, name, k) <==> first_group_at(orig, name, k),
        has_group(cur, name) <==> has_group(orig, name),
{
    assert forall|k: int| 0 <= k < orig.len() implies (crate::fem::group_named(
        #[trigger] cur[k],
        name,
    ) <==> crate::fem::group_named(orig[k], name)) by {
        if switched_by_names(orig, names, upto, k) {
            assert(group_switched(orig[k], cur[k], sw));
        }
    }
    assert forall|k: int| #![trigger first_group_at(cur, name, k)] #![trigger first_group_at(orig, name, k)]
        first_group_at(cur, name, k) <==> first_group_at(orig, name, k) by {
        if first_group_at(cur, name, k) {
            assert(crate::fem::group_named(orig[k], name));
            assert forall|j: int| 0 <= j < k implies !crate::fem::group_named(
                #[trigger] orig[j],
                name,
            ) by {
                assert(!crate::fem::group_named(cur[j], name));
            }
        }
        if first_group_at(orig, name, k) {
            assert(crate::fem::group_named(cur[k], name));
            assert forall|j: int| 0 <= j < k implies !crate::fem::group_named(
                #[trigger] cur[j],
                name,
            ) by {
                assert(!crate::fem::group_named(orig[j], name));
            }
        }
    }
    if has_group(cur, name) {
        let w = choose|w: int| 0 <= w < cur.len() && crate::fem::group_named(cur[w], name);
        assert(crate::fem::group_named(orig[w], name));
    }
    if has_group(orig, name) {
        let w = choose|w: int| 0 <= w < orig.len() && crate::fem::group_named(orig[w], name);
        assert(crate::fem::group_named(cur[w], name));
    }
}

/// Whether position `k` is selected: every position is when `id` is `None`,
/// else exactly the listed ones.
pub open spec fn selected(id: Option<&[usize]>, k: int) -> bool {
    match id {
        None => true,
        Some(l) => l@.contains(k as usize),
    }
}

/// Applies the switch to every selected group of the vector.
fn switch_groups(groups: &mut Vec<Option<GroupIo>>, sw: Switch, id: Option<&[usize]>)
    ensures
        final(groups)@.len() == old(groups)@.len(),
        forall|k: int|
            0 <= k < old(groups)@.len() ==> if selected(id, k) {
                group_switched(old(groups)@[k], #[trigger] final(groups)@[k], sw)
            } else {
                final(groups)@[k] == old(groups)@[k]
            },
{
    let mut k: usize = 0;
    while k < groups.len()
        invariant
            0 <= k <= groups@.len(),
            groups@.len() == old(groups)@.len(),
            forall|j: int| k <= j < groups@.len() ==> #[trigger] groups@[j] == old(groups)@[j],
            forall|j: int|
                0 <= j < k ==> if selected(id, j) {
                    group_switched(old(groups)@[j], #[trigger] groups@[j], sw)
                } else {
                    groups@[j] == old(groups)@[j]
                },
        decreases groups.len() - k,
    {
        let is_selected = match id {
            None => true,
            Some(l) => contains_usize(l, k),
        };
        if is_selected {
            let ghost pre = groups@;
            let slot = groups.remove(k);
            match slot {
                Some(g) => {
                    let g2 = switch_group(g, sw);
                    groups.insert(k, Some(g2));
                    proof {
                        assert(groups@ =~= pre.update(k as int, groups@[k as int]));
                    }
                },
                None => {
                    groups.insert(k, None);
                    proof {
                        assert(groups@ =~= pre);
                    }
                },
            }
        }
        k = k + 1;
    }
}

/// Re-picks every selected group of the vector by the predicate.
fn repick_groups<F: Fn(&IOData) -> bool>(
    groups: &mut Vec<Option<GroupIo>>,
    pred: &F,
    id: &[usize],
)
    requires
        forall|d: &IOData| #[trigger] call_requires(*pred, (d,)),
    ensures
        final(groups)@.len() == old(groups)@.len(),
        forall|k: int|
            0 <= k < old(groups)@.len() ==> if id@.contains(k as usize) {
                group_repicked(old(groups)@[k], #[trigger] final(groups)@[k], *pred)
            } else {
                final(groups)@[k] == old(groups)@[k]
            },
{
    let mut k: usize = 0;
    while k < groups.len()
        invariant
            forall|d: &IOData| #[trigger] call_requires(*pred, (d,)),
            0 <= k <= groups@.len(),
            groups@.len() == old(groups)@.len(),
            forall|j: int| k <= j < groups@.len() ==> #[trigger] groups@[j] == old(groups)@[j],
            forall|j: int|
                0 <= j < k ==> if id@.contains(j as usize) {
                    group_repicked(old(groups)@[j], #[trigger] groups@[j], *pred)
                } else {
                    groups@[j] == old(groups)@[j]
                },
        decreases groups.len() - k,
    {
        if contains_usize(id, k) {
            let ghost pre = groups@;
            let slot = groups.remove(k);
            match slot {
                Some(g) => {
                    let g2 = repick_group(g, pred);
                    groups.insert(k, Some(g2));
                    proof {
                        assert(groups@ =~= pre.update(k as int, groups@[k as int]));
                    }
                },
                None => {
                    groups.insert(k, None);
                    proof {
                        assert(groups@ =~= pre);
                    }
                },
            }
        }
        k = k + 1;
    }
}

impl FEM {
    /// Switches the listed input groups, or all of them when `id` is `None`.
    pub fn switch_inputs(&mut self, sw: Switch, id: Option<&[usize]>)
        ensures
            final(self).inputs@.len() == old(self).inputs@.len(),
            forall|k: int|
                0 <= k < old(self).inputs@.len() ==> if selected(id, k) {
                    group_switched(old(self).inputs@[k], #[trigger] final(self).inputs@[k], sw)
                } else {
                    final(self).inputs@[k] == old(self).inputs@[k]
                },
            final(self).outputs == old(self).outputs,
            final(self).eigen_frequencies == old(self).eigen_frequencies,
            final(self).inputs_to_modal_forces == old(self).inputs_to_modal_forces,
            final(self).modal_disp_to_outputs == old(self).modal_disp_to_outputs,
            final(self).proportional_damping_vec == old(self).proportional_damping_vec,
            final(self).static_gain == old(self).static_gain,
            final(self).n_io == old(self).n_io,
            final(self).model_description == old(self).model_description,
    {
        switch_groups(&mut self.inputs, sw, id);
    }

    /// Switches the listed output groups, or all of them when `id` is `None`.
    pub fn switch_outputs(&mut self, sw: Switch, id: Option<&[usize]>)
        ensures
            final(self).outputs@.len() == old(self).outputs@.len(),
            forall|k: int|
                0 <= k < old(self).outputs@.len() ==> if selected(id, k) {
                    group_switched(old(self).outputs@[k], #[trigger] final(self).outputs@[k], sw)
                } else {
                    final(self).outputs@[k] == old(self).outputs@[k]
                },
            final(self).inputs == old(self).inputs,
            final(self).eigen_frequencies == old(self).eigen_frequencies,
            final(self).inputs_to_modal_forces == old(self).inputs_to_modal_forces,
            final(self).modal_disp_to_outputs == old(self).modal_disp_to_outputs,
            final(self).proportional_damping_vec == old(self).proportional_damping_vec,
            final(self).static_gain == old(self).static_gain,
            final(self).n_io == old(self).n_io,
            final(self).model_description == old(self).model_description,
    {
        switch_groups(&mut self.outputs, sw, id);
    }

    /// Switches the input group with the given name; yields `false` when no
    /// present input group has it.
    pub fn switch_input(&mut self, name: &String, sw: Switch) -> (r: bool)
        ensures
            r == has_group(old(self).inputs@, name@),
            final(self).inputs@.len() == old(self).inputs@.len(),
            forall|k: int|
                0 <= k < old(self).inputs@.len() ==> if first_group_at(
                    old(self).inputs@,
                    name@,
                    k,
                ) {
                    group_switched(old(self).inputs@[k], #[trigger] final(self).inputs@[k], sw)
                } else {
                    final(self).inputs@[k] == old(self).inputs@[k]
                },
            final(self).outputs == old(self).outputs,
            final(self).eigen_frequencies == old(self).eigen_frequencies,
            final(self).inputs_to_modal_forces == old(self).inputs_to_modal_forces,
            final(self).modal_disp_to_outputs == old(self).modal_disp_to_outputs,
            final(self).proportional_damping_vec == old(self).proportional_damping_vec,
            final(self).static_gain == old(self).static_gain,
            final(self).n_io == old(self).n_io,
            final(self).model_description == old(self).model_description,
    {
        let n = self.inputs.len();
        match self.in_position(name) {
            Some(k) => {
                let mut ids: Vec<usize> = Vec::new();
                ids.push(k);
                self.switch_inputs(sw, Some(ids.as_slice()));
                proof {
                    assert(ids@[0] == k);
                    assert(ids@.contains(k));
                    assert forall|j: int| #![trigger ids@.contains(j as usize)]
                        0 <= j < n implies (ids@.contains(j as usize) <==> j == k) by {
                        assert(ids@[0] == k);
                        if ids@.contains(j as usize) {
                            let i = choose|i: int| 0 <= i < ids@.len() && ids@[i] == j as usize;
                            assert(i == 0);
                        }
                    }
                }
                true
            },
            None => false,
        }
    }

    /// Switches the output group with the given name; yields `false` when no
    /// present output group has it.
    pub fn switch_output(&mut self, name: &String, sw: Switch) -> (r: bool)
        ensures
            r == has_group(old(self).outputs@, name@),
            final(self).outputs@.len() == old(self).outputs@.len(),
            forall|k: int|
                0 <= k < old(self).outputs@.len() ==> if first_group_at(
                    old(self).outputs@,
                    name@,
                    k,
                ) {
                    group_switched(old(self).outputs@[k], #[trigger] final(self).outputs@[k], sw)
                } else {
                    final(self).outputs@[k] == old(self).outputs@[k]
                },
            final(self).inputs == old(self).inputs,
            final(self).eigen_frequencies == old(self).eigen_frequencies,
            final(self).inputs_to_modal_forces == old(self).inputs_to_modal_forces,
            final(self).modal_disp_to_outputs == old(self).modal_disp_to_outputs,
            final(self).proportional_damping_vec == old(self).proportional_damping_vec,
            final(self).static_gain == old(self).static_gain,
            final(self).n_io == old(self).n_io,
            final(self).model_description == old(self).model_description,
    {
        let n = self.outputs.len();
        match self.out_position(name) {
            Some(k) => {
                let mut ids: Vec<usize> = Vec::new();
                ids.push(k);
                self.switch_outputs(sw, Some(ids.as_slice()));
                proof {
                    assert(ids@[0] == k);
                    assert(ids@.contains(k));
                    assert forall|j: int| #![trigger ids@.contains(j as usize)]
                        0 <= j < n implies (ids@.contains(j as usize) <==> j == k) by {
                        assert(ids@[0] == k);
                        if ids@.contains(j as usize) {
                            let i = choose|i: int| 0 <= i < ids@.len() && ids@[i] == j as usize;
                            assert(i == 0);
                        }
                    }
                }
                true
            },
            None => false,
        }
    }

    /// Switches, name by name and in list order, the first input group
    /// carrying each name; the walk stops at the first name that no present
    /// input group has, failing with that name and leaving the groups of the
    /// earlier names switched and every other group as it was.
    pub fn switch_inputs_by_name(&mut self, names: &Vec<String>, sw: Switch) -> (r: Result<
        (),
        FemError,
    >)
        ensures
            final(self).inputs@.len() == old(self).inputs@.len(),
            r is Ok <==> known_prefix(old(self).inputs@, names@) == names@.len(),
            r matches Err(e) ==> (e matches FemError::Convert(m) && 0 <= known_prefix(
                old(self).inputs@,
                names@,
            ) < names@.len() && m == names@[known_prefix(old(self).inputs@, names@)] && !has_group(
                old(self).inputs@,
                names@[known_prefix(old(self).inputs@, names@)]@,
            )),
            forall|k: int|
                0 <= k < old(self).inputs@.len() ==> if switched_by_names(
                    old(self).inputs@,
                    names@,
                    known_prefix(old(self).inputs@, names@),
                    k,
                ) {
                    group_switched(old(self).inputs@[k], #[trigger] final(self).inputs@[k], sw)
                } else {
                    final(self).inputs@[k] == old(self).inputs@[k]
                },
            final(self).outputs == old(self).outputs,
            final(self).eigen_frequencies == old(self).eigen_frequencies,
            final(self).inputs_to_modal_forces == old(self).inputs_to_modal_forces,
            final(self).modal_disp_to_outputs == old(self).modal_disp_to_outputs,
            final(self).proportional_damping_vec == old(self).proportional_damping_vec,
            final(self).static_gain == old(self).static_gain,
            final(self).n_io == old(self).n_io,
            final(self).model_description == old(self).model_description,
    {
        let mut n: usize = 0;
        while n < names.len()
            invariant
                0 <= n <= names@.len(),
                self.inputs@.len() == old(self).inputs@.len(),
                forall|j: int|
                    0 <= j < n ==> has_group(old(self).inputs@, (#[trigger] names@[j])@),
                forall|k: int|
                    0 <= k < old(self).inputs@.len() ==> if switched_by_names(
                        old(self).inputs@,
                        names@,
                        n as int,
                        k,
                    ) {
                        group_switched(old(self).inputs@[k], #[trigger] self.inputs@[k], sw)
                    } else {
                        self.inputs@[k] == old(self).inputs@[k]
                    },
                self.outputs == old(self).outputs,
                self.eigen_frequencies == old(self).eigen_frequencies,
                self.inputs_to_modal_forces == old(self).inputs_to_modal_forces,
                self.modal_disp_to_outputs == old(self).modal_disp_to_outputs,
                self.proportional_damping_vec == old(self).proportional_damping_vec,
                self.static_gain == old(self).static_gain,
                self.n_io == old(self).n_io,
                self.model_description == old(self).model_description,
            decreases names.len() - n,
        {
            let name = &names[n];
            let ghost pre = self.inputs@;
            proof {
                lemma_lookup_preserved(old(self).inputs@, pre, names@, n as int, sw, name@);
            }
            let found = self.switch_input(name, sw);
            if !found {
                proof {
                    lemma_known_prefix(old(self).inputs@, names@, n as int);
                }
                return Err(FemError::Convert(name.clone()));
            }
            proof {
                assert(has_group(old(self).inputs@, name@));
                assert forall|k: int| 0 <= k < old(self).inputs@.len() implies (
                if switched_by_names(old(self).inputs@, names@, n as int + 1, k) {
                    group_switched(old(self).inputs@[k], #[trigger] self.inputs@[k], sw)
                } else {
                    self.inputs@[k] == old(self).inputs@[k]
                }) by {
                    if first_group_at(pre, name@, k) {
                        assert(first_group_at(old(self).inputs@, name@, k));
                        assert(switched_by_names(old(self).inputs@, names@, n as int + 1, k));
                        if switched_by_names(old(self).inputs@, names@, n as int, k) {
                            lemma_group_switched_twice(
                                old(self).inputs@[k],
                                pre[k],
                                self.inputs@[k],
                                sw,
                            );
                        }
                    } else {
                        assert(self.inputs@[k] == pre[k]);
                        if switched_by_names(old(self).inputs@, names@, n as int + 1, k) {
                            let n2 = choose|n2: int|
                                0 <= n2 < n as int + 1 && #[trigger] first_group_at(
                                    old(self).inputs@,
                                    names@[n2]@,
                                    k,
                                );
                            if n2 == n {
                                assert(first_group_at(pre, name@, k));
                            } else {
                                assert(switched_by_names(old(self).inputs@, names@, n as int, k));
                            }
                        }
                    }
                }
            }
            n = n + 1;
        }
        proof {
            lemma_known_prefix(old(self).inputs@, names@, names@.len() as int);
        }
        Ok(())
    }
}

impl FEM {
    /// Switches, name by name and in list order, the first output group
    /// carrying each name; the walk stops at the first name that no present
    /// output group has, failing with that name and leaving the groups of
    /// the earlier names switched and every other group as it was.
    pub fn switch_outputs_by_name(&mut self, names: &Vec<String>, sw: Switch) -> (r: Result<
        (),
        FemError,
    >)
        ensures
            final(self).outputs@.len() == old(self).outputs@.len(),
            r is Ok <==> known_prefix(old(self).outputs@, names@) == names@.len(),
            r matches Err(e) ==> (e matches FemError::Convert(m) && 0 <= known_prefix(
                old(self).outputs@,
                names@,
            ) < names@.len() && m == names@[known_prefix(old(self).outputs@, names@)] && !has_group(
                old(self).outputs@,
                names@[known_prefix(old(self).outputs@, names@)]@,
            )),
            forall|k: int|
                0 <= k < old(self).outputs@.len() ==> if switched_by_names(
                    old(self).outputs@,
                    names@,
                    known_prefix(old(self).outputs@, names@),
                    k,
                ) {
                    group_switched(old(self).outputs@[k], #[trigger] final(self).outputs@[k], sw)
                } else {
                    final(self).outputs@[k] == old(self).outputs@[k]
                },
            final(self).inputs == old(self).inputs,
            final(self).eigen_frequencies == old(self).eigen_frequencies,
            final(self).inputs_to_modal_forces == old(self).inputs_to_modal_forces,
            final(self).modal_disp_to_outputs == old(self).modal_disp_to_outputs,
            final(self).proportional_damping_vec == old(self).proportional_damping_vec,
            final(self).static_gain == old(self).static_gain,
            final(self).n_io == old(self).n_io,
            final(self).model_description == old(self).model_description,
    {
        let mut n: usize = 0;
        while n < names.len()
            invariant
                0 <= n <= names@.len(),
                self.outputs@.len() == old(self).outputs@.len(),
                forall|j: int|
                    0 <= j < n ==> has_group(old(self).outputs@, (#[trigger] names@[j])@),
                forall|k: int|
                    0 <= k < old(self).outputs@.len() ==> if switched_by_names(
                        old(self).outputs@,
                        names@,
                        n as int,
                        k,
                    ) {
                        group_switched(old(self).outputs@[k], #[trigger] self.outputs@[k], sw)
                    } else {
                        self.outputs@[k] == old(self).outputs@[k]
                    },
                self.inputs == old(self).inputs,
                self.eigen_frequencies == old(self).eigen_frequencies,
                self.inputs_to_modal_forces == old(self).inputs_to_modal_forces,
                self.modal_disp_to_outputs == old(self).modal_disp_to_outputs,
                self.proportional_damping_vec == old(self).proportional_damping_vec,
                self.static_gain == old(self).static_gain,
                self.n_io == old(self).n_io,
                self.model_description == old(self).model_description,
            decreases names.len() - n,
        {
            let name = &names[n];
            let ghost pre = self.outputs@;
            proof {
                lemma_lookup_preserved(old(self).outputs@, pre, names@, n as int, sw, name@);
            }
            let found = self.switch_output(name, sw);
            if !found {
                proof {
                    lemma_known_prefix(old(self).outputs@, names@, n as int);
                }
                return Err(FemError::Convert(name.clone()));
            }
            proof {
                assert(has_group(old(self).outputs@, name@));
                assert forall|k: int| 0 <= k < old(self).outputs@.len() implies (
                if switched_by_names(old(self).outputs@, names@, n as int + 1, k) {
                    group_switched(old(self).outputs@[k], #[trigger] self.outputs@[k], sw)
                } else {
                    self.outputs@[k] == old(self).outputs@[k]
                }) by {
                    if first_group_at(pre, name@, k) {
                        assert(first_group_at(old(self).outputs@, name@, k));
                        assert(switched_by_names(old(self).outputs@, names@, n as int + 1, k));
                        if switched_by_names(old(self).outputs@, names@, n as int, k) {
                            lemma_group_switched_twice(
                                old(self).outputs@[k],
                                pre[k],
                                self.outputs@[k],
                                sw,
                            );
                        }
                    } else {
                        assert(self.outputs@[k] == pre[k]);
                        if switched_by_names(old(self).outputs@, names@, n as int + 1, k) {
                            let n2 = choose|n2: int|
                                0 <= n2 < n as int + 1 && #[trigger] first_group_at(
                                    old(self).outputs@,
                                    names@[n2]@,
                                    k,
                                );
                            if n2 == n {
                                assert(first_group_at(pre, name@, k));
                            } else {
                                assert(switched_by_names(old(self).outputs@, names@, n as int, k));
                            }
                        }
                    }
                }
            }
            n = n + 1;
        }
        proof {
            lemma_known_prefix(old(self).outputs@, names@, names@.len() as int);
        }
        Ok(())
    }

    /// Keeps the listed input groups, dropping the others, and within each
    /// kept group re-enables exactly the degrees of freedom whose payload
    /// satisfies the predicate.
    pub fn keep_inputs_by<F: Fn(&IOData) -> bool>(&mut self, id: &[usize], pred: &F)
        requires
            forall|d: &IOData| #[trigger] call_requires(*pred, (d,)),
        ensures
            final(self).inputs@.len() == old(self).inputs@.len(),
            forall|k: int|
                0 <= k < old(self).inputs@.len() ==> if id@.contains(k as usize) {
                    group_repicked(old(self).inputs@[k], #[trigger] final(self).inputs@[k], *pred)
                } else {
                    final(self).inputs@[k] is None
                },
            final(self).outputs == old(self).outputs,
            final(self).eigen_frequencies == old(self).eigen_frequencies,
            final(self).inputs_to_modal_forces == old(self).inputs_to_modal_forces,
            final(self).modal_disp_to_outputs == old(self).modal_disp_to_outputs,
            final(self).proportional_damping_vec == old(self).proportional_damping_vec,
            final(self).static_gain == old(self).static_gain,
            final(self).n_io == old(self).n_io,
            final(self).model_description == old(self).model_description,
    {
        self.keep_inputs(id);
        repick_groups(&mut self.inputs, pred, id);
    }

    /// Keeps the listed output groups, dropping the others, and within each
    /// kept group re-enables exactly the degrees of freedom whose payload
    /// satisfies the predicate.
    pub fn keep_outputs_by<F: Fn(&IOData) -> bool>(&mut self, id: &[usize], pred: &F)
        requires
            forall|d: &IOData| #[trigger] call_requires(*pred, (d,)),
        ensures
            final(self).outputs@.len() == old(self).outputs@.len(),
            forall|k: int|
                0 <= k < old(self).outputs@.len() ==> if id@.contains(k as usize) {
                    group_repicked(old(self).outputs@[k], #[trigger] final(self).outputs@[k], *pred)
                } else {
                    final(self).outputs@[k] is None
                },
            final(self).inputs == old(self).inputs,
            final(self).eigen_frequencies == old(self).eigen_frequencies,
            final(self).inputs_to_modal_forces == old(self).inputs_to_modal_forces,
            final(self).modal_disp_to_outputs == old(self).modal_disp_to_outputs,
            final(self).proportional_damping_vec == old(self).proportional_damping_vec,
            final(self).static_gain == old(self).static_gain,
            final(self).n_io == old(self).n_io,
            final(self).model_description == old(self).model_description,
    {
        self.keep_outputs(id);
        repick_groups(&mut self.outputs, pred, id);
    }

    /// Within each listed input group, re-enables exactly the degrees of
    /// freedom whose payload satisfies the predicate; other groups are kept
    /// as they are.
    pub fn filter_inputs_by<F: Fn(&IOData) -> bool>(&mut self, id: &[usize], pred: &F)
        requires
            forall|d: &IOData| #[trigger] call_requires(*pred, (d,)),
        ensures
            final(self).inputs@.len() == old(self).inputs@.len(),
            forall|k: int|
                0 <= k < old(self).inputs@.len() ==> if id@.contains(k as usize) {
                    group_repicked(old(self).inputs@[k], #[trigger] final(self).inputs@[k], *pred)
                } else {
                    final(self).inputs@[k] == old(self).inputs@[k]
                },
            final(self).outputs == old(self).outputs,
            final(self).eigen_frequencies == old(self).eigen_frequencies,
            final(self).inputs_to_modal_forces == old(self).inputs_to_modal_forces,
            final(self).modal_disp_to_outputs == old(self).modal_disp_to_outputs,
            final(self).proportional_damping_vec == old(self).proportional_damping_vec,
            final(self).static_gain == old(self).static_gain,
            final(self).n_io == old(self).n_io,
            final(self).model_description == old(self).model_description,
    {
        repick_groups(&mut self.inputs, pred, id);
    }

    /// Within each listed output group, re-enables exactly the degrees of
    /// freedom whose payload satisfies the predicate; other groups are kept
    /// as they are.
    pub fn filter_outputs_by<F: Fn(&IOData) -> bool>(&mut self, id: &[usize], pred: &F)
        requires
            forall|d: &IOData| #[trigger] call_requires(*pred, (d,)),
        ensures
            final(self).outputs@.len() == old(self).outputs@.len(),
            forall|k: int|
                0 <= k < old(self).outputs@.len() ==> if id@.contains(k as usize) {
                    group_repicked(old(self).outputs@[k], #[trigger] final(self).outputs@[k], *pred)
                } else {
                    final(self).outputs@[k] == old(self).outputs@[k]
                },
            final(self).inputs == old(self).inputs,
            final(self).eigen_frequencies == old(self).eigen_frequencies,
            final(self).inputs_to_modal_forces == old(self).inputs_to_modal_forces,
            final(self).modal_disp_to_outputs == old(self).modal_disp_to_outputs,
            final(self).proportional_damping_vec == old(self).proportional_damping_vec,
            final(self).static_gain == old(self).static_gain,
            final(self).n_io == old(self).n_io,
            final(self).model_description == old(self).model_description,
    {
        repick_groups(&mut self.outputs, pred, id);
    }
}

/// The degrees of freedom kept by the mask, in order; kept entries carry
/// their state unchanged.
pub open spec fn mask_filter(s: Seq<IO>, m: Seq<bool>) -> Seq<IO>
    decreases s.len(),
{
    if s.len() == 0 {
        Seq::empty()
    } else {
        (if m[0] {
            seq![s[0]]
        } else {
            Seq::empty()
        }) + mask_filter(s.skip(1), m.skip(1))
    }
}

/// Whether the mask records the predicate's verdict on each payload.
pub open spec fn mask_of<F: Fn(&IOData) -> bool>(s: Seq<IO>, m: Seq<bool>, pred: F) -> bool {
    &&& m.len() == s.len()
    &&& forall|j: int|
        0 <= j < s.len() ==> (((#[trigger] m[j]) ==> call_ensures(
            pred,
            (&s[j].data_spec(),),
            true,
        )) && (!m[j] ==> call_ensures(pred, (&s[j].data_spec(),), false)))
}

/// Splitting the last element off the sequences splits the filter.
pub proof fn lemma_mask_filter_snoc(s: Seq<IO>, m: Seq<bool>)
    requires
        s.len() == m.len(),
        s.len() > 0,
    ensures
        mask_filter(s, m) == mask_filter(s.drop_last(), m.drop_last()) + (if m.last() {
            seq![s.last()]
        } else {
            Seq::<IO>::empty()
        }),
    decreases s.len(),
{
    if s.len() == 1 {
        assert(s.skip(1) =~= Seq::<IO>::empty());
        assert(m.skip(1) =~= Seq::<bool>::empty());
        assert(s.drop_last() =~= Seq::<IO>::empty());
        assert(m.drop_last() =~= Seq::<bool>::empty());
        assert(mask_filter(s, m) =~= mask_filter(s.drop_last(), m.drop_last()) + (if m.last() {
            seq![s.last()]
        } else {
            Seq::<IO>::empty()
        }));
    } else {
        lemma_mask_filter_snoc(s.skip(1), m.skip(1));
        assert(s.skip(1).drop_last() =~= s.drop_last().skip(1));
        assert(m.skip(1).drop_last() =~= m.drop_last().skip(1));
        assert(s.skip(1).last() == s.last());
        assert(m.skip(1).last() == m.last());
        assert(mask_filter(s, m) =~= mask_filter(s.drop_last(), m.drop_last()) + (if m.last() {
            seq![s.last()]
        } else {
            Seq::<IO>::empty()
        }));
    }
}

/// How a group changes when the degrees of freedom failing the predicate are
/// removed: some mask records the verdicts and the kept entries stand in
/// order, states included.
pub open spec fn group_pruned<F: Fn(&IOData) -> bool>(
    oldg: Option<GroupIo>,
    newg: Option<GroupIo>,
    pred: F,
) -> bool {
    match (oldg, newg) {
        (Some(a), Some(b)) => b.name == a.name && exists|m: Seq<bool>|
            #[trigger] mask_of(a.io@, m, pred) && b.io@ == mask_filter(a.io@, m),
        (None, None) => true,
        _ => false,
    }
}

/// Removes the degrees of freedom whose payload fails the predicate; the
/// kept ones stand in order with their state unchanged.
fn prune_group<F: Fn(&IOData) -> bool>(g: GroupIo, pred: &F) -> (r: GroupIo)
    requires
        forall|d: &IOData| #[trigger] call_requires(*pred, (d,)),
    ensures
        group_pruned(Some(g), Some(r), *pred),
{
    let GroupIo { name, io } = g;
    let ghost orig = io@;
    let mut rev = reverse_ios(io);
    let mut out: Vec<IO> = Vec::new();
    let ghost mut mask: Seq<bool> = Seq::empty();
    while rev.len() > 0
        invariant
            forall|d: &IOData| #[trigger] call_requires(*pred, (d,)),
            rev@.len() + mask.len() == orig.len(),
            mask.len() <= orig.len(),
            forall|j: int|
                0 <= j < rev@.len() ==> #[trigger] rev@[j] == orig[orig.len() - 1 - j],
            mask_of(orig.take(mask.len() as int), mask, *pred),
            out@ == mask_filter(orig.take(mask.len() as int), mask),
        decreases rev.len(),
    {
        let x = rev.pop().unwrap();
        let ghost pre_mask = mask;
        let ghost i = mask.len() as int;
        let keep: bool = match &x {
            IO::On(d) => pred(d),
            IO::Off(d) => pred(d),
        };
        proof {
            assert(x == orig[i]);
            mask = pre_mask.push(keep);
        }
        if keep {
            out.push(x);
        }
        proof {
            assert(mask.drop_last() =~= pre_mask);
            assert(orig.take(i + 1).drop_last() =~= orig.take(i));
            assert(mask.last() == keep && orig.take(i + 1).last() == orig[i]);
            lemma_mask_filter_snoc(orig.take(i + 1), mask);
            assert(out@ =~= mask_filter(orig.take(i + 1), mask));
            assert forall|j: int| 0 <= j < i + 1 implies (((#[trigger] mask[j])
                ==> call_ensures(*pred, (&orig.take(i + 1)[j].data_spec(),), true)) && (!mask[j]
                ==> call_ensures(*pred, (&orig.take(i + 1)[j].data_spec(),), false))) by {
                if j < i {
                    assert(mask[j] == pre_mask[j]);
                    assert(orig.take(i + 1)[j] == orig.take(i)[j]);
                } else {
                    assert(mask[j] == keep);
                    assert(orig.take(i + 1)[j] == orig[i]);
                }
            }
            assert(mask_of(orig.take(i + 1), mask, *pred));
        }
    }
    proof {
        assert(orig.take(orig.len() as int) =~= orig);
        assert(g.io@ == orig);
        assert(mask_of(g.io@, mask, *pred) && out@ == mask_filter(g.io@, mask));
    }
    GroupIo { name, io: out }
}

impl FEM {
    /// Within each listed input group, removes the degrees of freedom whose
    /// payload fails the predicate; other groups are kept as they are.
    pub fn remove_inputs_by<F: Fn(&IOData) -> bool>(&mut self, id: &[usize], pred: &F)
        requires
            forall|d: &IOData| #[trigger] call_requires(*pred, (d,)),
        ensures
            final(self).inputs@.len() == old(self).inputs@.len(),
            forall|k: int|
                0 <= k < old(self).inputs@.len() ==> if id@.contains(k as usize) {
                    group_pruned(old(self).inputs@[k], #[trigger] final(self).inputs@[k], *pred)
                } else {
                    final(self).inputs@[k] == old(self).inputs@[k]
                },
            final(self).outputs == old(self).outputs,
            final(self).eigen_frequencies == old(self).eigen_frequencies,
            final(self).inputs_to_modal_forces == old(self).inputs_to_modal_forces,
            final(self).modal_disp_to_outputs == old(self).modal_disp_to_outputs,
            final(self).proportional_damping_vec == old(self).proportional_damping_vec,
            final(self).static_gain == old(self).static_gain,
            final(self).n_io == old(self).n_io,
            final(self).model_description == old(self).model_description,
    {
        let mut k: usize = 0;
        while k < self.inputs.len()
            invariant
                forall|d: &IOData| #[trigger] call_requires(*pred, (d,)),
                0 <= k <= self.inputs@.len(),
                self.inputs@.len() == old(self).inputs@.len(),
                forall|j: int|
                    k <= j < self.inputs@.len() ==> #[trigger] self.inputs@[j] == old(
                        self,
                    ).inputs@[j],
                forall|j: int|
                    0 <= j < k ==> if id@.contains(j as usize) {
                        group_pruned(old(self).inputs@[j], #[trigger] self.inputs@[j], *pred)
                    } else {
                        self.inputs@[j] == old(self).inputs@[j]
                    },
                self.outputs == old(self).outputs,
                self.eigen_frequencies == old(self).eigen_frequencies,
                self.inputs_to_modal_forces == old(self).inputs_to_modal_forces,
                self.modal_disp_to_outputs == old(self).modal_disp_to_outputs,
                self.proportional_damping_vec == old(self).proportional_damping_vec,
                self.static_gain == old(self).static_gain,
                self.n_io == old(self).n_io,
                self.model_description == old(self).model_description,
            decreases self.inputs.len() - k,
        {
            if contains_usize(id, k) {
                let ghost pre = self.inputs@;
                let slot = self.inputs.remove(k);
                match slot {
                    Some(g) => {
                        let g2 = prune_group(g, pred);
                        self.inputs.insert(k, Some(g2));
                        proof {
                            assert(self.inputs@ =~= pre.update(k as int, self.inputs@[k as int]));
                        }
                    },
                    None => {
                        self.inputs.insert(k, None);
                        proof {
                            assert(self.inputs@ =~= pre);
                        }
                    },
                }
            }
            k = k + 1;
        }
    }
}


} // verus!
