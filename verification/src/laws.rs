//! Laws of the assembler, proved over the model.
//!
//! Each law is stated against the transitions of [`crate::model`], which
//! the executable operations are proved to follow.
use vstd::prelude::*;
use crate::disp::valid_size;
use crate::disp::disp_bytes;
use crate::disp::disp_fits;
use crate::disp::le_signed;
use crate::disp::lemma_displacement_roundtrip;
use crate::model::AsmModel;
use crate::model::PatchLoc;
use crate::model::offset_of;
use crate::model::lookup;
use crate::model::loc_in;
use crate::model::patch_one;
use crate::model::patch_list;
use crate::model::pending_for;
use crate::model::commit_ready;
use crate::model::commit_model;
use crate::model::local_label_model;
use crate::model::resolved_ops;
use crate::model::wf_model;
use crate::model::lemma_patch_one;
use crate::model::lemma_patch_globals_len;
use crate::model::lemma_patch_dynamics_len;

verus! {

/// Emitting bytes advances the offset by exactly their number.
pub proof fn lemma_emit_advances_offset(m: AsmModel, bytes: Seq<u8>)
    ensures
        offset_of(AsmModel { ops: m.ops + bytes, ..m }) == offset_of(m) + bytes.len(),
{
}

/// A later definition of a label name overrides every earlier one: a
/// lookup finds the most recent definition.
pub proof fn lemma_definition_overrides(
    defs: Seq<(Seq<char>, usize)>,
    name: Seq<char>,
    target: usize,
)
    ensures
        lookup(defs.push((name, target)), name) == Some(target),
{
    assert(defs.push((name, target)).last() == (name, target));
}

/// Committing never rewrites already published code below the staging
/// window, and keeps every label definition: what was emitted at an
/// absolute offset stays there.
pub proof fn lemma_commit_preserves_published_prefix(m: AsmModel, k: int)
    requires
        wf_model(m),
        commit_ready(m),
        0 <= k < m.start,
    ensures
        commit_model(m).published.len() >= m.published.len(),
        commit_model(m).published[k] == m.published[k],
        commit_model(m).start >= m.start,
        commit_model(m).global_defs == m.global_defs,
        commit_model(m).dynamic_defs == m.dynamic_defs,
        commit_model(m).local_defs == m.local_defs,
{
    if m.ops.len() > 0 {
        let resolved = resolved_ops(m);
        let after_globals = crate::model::patch_globals(
            m.ops,
            m.start,
            m.global_relocs,
            m.global_defs,
        );
        lemma_patch_globals_len(m.ops, m.start, m.global_relocs, m.global_defs);
        assert(forall|i: int|
            0 <= i < m.dynamic_relocs.len() ==> loc_in(
                #[trigger] m.dynamic_relocs[i].0,
                m.start,
                after_globals.len(),
            ));
        lemma_patch_dynamics_len(after_globals, m.start, m.dynamic_relocs, m.dynamic_defs);
        assert(resolved.len() == m.ops.len());
        let end = m.start + m.ops.len();
        if end <= m.published.len() {
            assert(commit_model(m).published[k] == m.published.take(m.start as int)[k]);
        } else {
            assert(commit_model(m).published[k] == m.published.take(m.start as int)[k]);
        }
    }
}

/// Committing twice is the same as committing once: the first commit
/// leaves nothing staged, so the second changes nothing.
pub proof fn lemma_commit_idempotent(m: AsmModel)
    ensures
        commit_ready(commit_model(m)),
        commit_model(commit_model(m)) == commit_model(m),
{
}

/// A resolved patch reads back as its displacement: the `size` bytes
/// ending at `loc.end`, read as a little-endian two's-complement integer,
/// equal `target - loc.end` whenever that displacement fits the field.
pub proof fn lemma_patched_field_reads_back(s: Seq<u8>, base: nat, loc: PatchLoc, target: nat)
    requires
        loc_in(loc, base, s.len()),
        disp_fits(target - loc.end, loc.size as nat),
    ensures
        le_signed(
            patch_one(s, base, loc, target).subrange(
                loc.end - base - loc.size,
                loc.end - base,
            ),
        ) == target - loc.end,
{
    lemma_patch_one(s, base, loc, target);
    lemma_displacement_roundtrip(target - loc.end, loc.size as nat);
}

/// An in-place patch of the mapping touches nothing but its own field:
/// code at every other offset stays as it was emitted.
pub proof fn lemma_guarded_patch_outside(s: Seq<u8>, loc: PatchLoc, target: nat, k: int)
    requires
        0 <= k < s.len(),
        !(loc.end - loc.size <= k < loc.end),
    ensures
        crate::assembler::guarded_patch(s, loc, target).len() == s.len(),
        crate::assembler::guarded_patch(s, loc, target)[k] == s[k],
{
    if valid_size(loc.size) && loc.size <= loc.end && loc.end <= s.len() {
        lemma_patch_one(s, 0, loc, target);
    }
}

/// A resolved in-place patch of the mapping reads back as its
/// displacement, in the guarded form the alteration pass applies.
pub proof fn lemma_guarded_patched_field_reads_back(s: Seq<u8>, loc: PatchLoc, target: nat)
    requires
        valid_size(loc.size),
        loc.size <= loc.end,
        loc.end <= s.len(),
        disp_fits(target - loc.end, loc.size as nat),
    ensures
        le_signed(
            crate::assembler::guarded_patch(s, loc, target).subrange(
                loc.end - loc.size,
                loc.end as int,
            ),
        ) == target - loc.end,
{
    assert(loc_in(loc, 0, s.len()));
    lemma_patched_field_reads_back(s, 0, loc, target);
}

/// The fields of two patches do not overlap.
pub open spec fn fields_disjoint(a: PatchLoc, b: PatchLoc) -> bool {
    a.end <= b.end - b.size || b.end <= a.end - a.size
}

/// A byte outside every field of a global resolution pass is untouched by
/// it.
pub proof fn lemma_patch_globals_outside(
    s: Seq<u8>,
    base: nat,
    relocs: Seq<(PatchLoc, Seq<char>)>,
    defs: Seq<(Seq<char>, usize)>,
    k: int,
)
    requires
        forall|j: int| 0 <= j < relocs.len() ==> loc_in(#[trigger] relocs[j].0, base, s.len()),
        0 <= k < s.len(),
        forall|j: int|
            0 <= j < relocs.len() ==> !((#[trigger] relocs[j].0).end - base - relocs[j].0.size <= k
                < relocs[j].0.end - base),
    ensures
        crate::model::patch_globals(s, base, relocs, defs).len() == s.len(),
        crate::model::patch_globals(s, base, relocs, defs)[k] == s[k],
    decreases relocs.len(),
{
    lemma_patch_globals_len(s, base, relocs, defs);
    if relocs.len() > 0 {
        let prev = crate::model::patch_globals(s, base, relocs.drop_last(), defs);
        assert(forall|j: int|
            0 <= j < relocs.drop_last().len() ==> loc_in(
                #[trigger] relocs.drop_last()[j].0,
                base,
                s.len(),
            ));
        assert(forall|j: int|
            0 <= j < relocs.drop_last().len() ==> !((#[trigger] relocs.drop_last()[j].0).end - base
                - relocs.drop_last()[j].0.size <= k < relocs.drop_last()[j].0.end - base));
        lemma_patch_globals_outside(s, base, relocs.drop_last(), defs, k);
        let last = relocs[relocs.len() - 1];
        match lookup(defs, last.1) {
            Some(t) => {
                lemma_patch_one(prev, base, last.0, t as nat);
            },
            None => {
            },
        }
    }
}

/// A byte outside every field of a dynamic resolution pass is untouched by
/// it.
pub proof fn lemma_patch_dynamics_outside(
    s: Seq<u8>,
    base: nat,
    relocs: Seq<(PatchLoc, usize)>,
    defs: Seq<Option<usize>>,
    k: int,
)
    requires
        forall|j: int| 0 <= j < relocs.len() ==> loc_in(#[trigger] relocs[j].0, base, s.len()),
        0 <= k < s.len(),
        forall|j: int|
            0 <= j < relocs.len() ==> !((#[trigger] relocs[j].0).end - base - relocs[j].0.size <= k
                < relocs[j].0.end - base),
    ensures
        crate::model::patch_dynamics(s, base, relocs, defs).len() == s.len(),
        crate::model::patch_dynamics(s, base, relocs, defs)[k] == s[k],
    decreases relocs.len(),
{
    lemma_patch_dynamics_len(s, base, relocs, defs);
    if relocs.len() > 0 {
        let prev = crate::model::patch_dynamics(s, base, relocs.drop_last(), defs);
        assert(forall|j: int|
            0 <= j < relocs.drop_last().len() ==> loc_in(
                #[trigger] relocs.drop_last()[j].0,
                base,
                s.len(),
            ));
        assert(forall|j: int|
            0 <= j < relocs.drop_last().len() ==> !((#[trigger] relocs.drop_last()[j].0).end - base
                - relocs.drop_last()[j].0.size <= k < relocs.drop_last()[j].0.end - base));
        lemma_patch_dynamics_outside(s, base, relocs.drop_last(), defs, k);
        let last = relocs[relocs.len() - 1];
        if last.1 < defs.len() && defs[last.1 as int] is Some {
            lemma_patch_one(prev, base, last.0, defs[last.1 as int]->Some_0 as nat);
        }
    }
}

/// After a whole global resolution pass with pairwise-disjoint fields,
/// every field holds the displacement to its own label.
pub proof fn lemma_patch_globals_field_reads_back(
    s: Seq<u8>,
    base: nat,
    relocs: Seq<(PatchLoc, Seq<char>)>,
    defs: Seq<(Seq<char>, usize)>,
    i: int,
)
    requires
        forall|j: int| 0 <= j < relocs.len() ==> loc_in(#[trigger] relocs[j].0, base, s.len()),
        crate::model::globals_resolved(relocs, defs),
        forall|j: int, k: int|
            0 <= j < relocs.len() && 0 <= k < relocs.len() && j != k ==> fields_disjoint(
                #[trigger] relocs[j].0,
                #[trigger] relocs[k].0,
            ),
        0 <= i < relocs.len(),
    ensures
        ({
            let loc = relocs[i].0;
            let t = lookup(defs, relocs[i].1)->Some_0;
            crate::model::patch_globals(s, base, relocs, defs).subrange(
                loc.end - base - loc.size,
                loc.end - base,
            ) == disp_bytes(t - loc.end, loc.size as nat)
        }),
    decreases relocs.len(),
{
    let loc = relocs[i].0;
    let t = lookup(defs, relocs[i].1)->Some_0;
    let prev = crate::model::patch_globals(s, base, relocs.drop_last(), defs);
    let whole = crate::model::patch_globals(s, base, relocs, defs);
    assert(forall|j: int|
        0 <= j < relocs.drop_last().len() ==> loc_in(
            #[trigger] relocs.drop_last()[j].0,
            base,
            s.len(),
        ));
    lemma_patch_globals_len(s, base, relocs.drop_last(), defs);
    lemma_patch_globals_len(s, base, relocs, defs);
    let last = relocs[relocs.len() - 1];
    assert(lookup(defs, last.1) is Some);
    let tl = lookup(defs, last.1)->Some_0;
    assert(whole == patch_one(prev, base, last.0, tl as nat));
    lemma_patch_one(prev, base, last.0, tl as nat);
    if i == relocs.len() - 1 {
        assert(whole.subrange(loc.end - base - loc.size, loc.end - base) == disp_bytes(
            t - loc.end,
            loc.size as nat,
        ));
    } else {
        assert(forall|j: int, k: int|
            0 <= j < relocs.drop_last().len() && 0 <= k < relocs.drop_last().len() && j != k
                ==> fields_disjoint(
                #[trigger] relocs.drop_last()[j].0,
                #[trigger] relocs.drop_last()[k].0,
            ));
        lemma_patch_globals_field_reads_back(s, base, relocs.drop_last(), defs, i);
        assert(fields_disjoint(loc, last.0));
        assert forall|k: int|
            loc.end - base - loc.size <= k < loc.end - base implies whole[k] == prev[k] by {
            assert(loc_in(loc, base, s.len()));
            assert(loc_in(last.0, base, s.len()));
        }
        assert(whole.subrange(loc.end - base - loc.size, loc.end - base) =~= prev.subrange(
            loc.end - base - loc.size,
            loc.end - base,
        ));
    }
}

/// After a whole dynamic resolution pass with pairwise-disjoint fields,
/// every field holds the displacement to its own label.
pub proof fn lemma_patch_dynamics_field_reads_back(
    s: Seq<u8>,
    base: nat,
    relocs: Seq<(PatchLoc, usize)>,
    defs: Seq<Option<usize>>,
    i: int,
)
    requires
        forall|j: int| 0 <= j < relocs.len() ==> loc_in(#[trigger] relocs[j].0, base, s.len()),
        crate::model::dynamics_resolved(relocs, defs),
        forall|j: int, k: int|
            0 <= j < relocs.len() && 0 <= k < relocs.len() && j != k ==> fields_disjoint(
                #[trigger] relocs[j].0,
                #[trigger] relocs[k].0,
            ),
        0 <= i < relocs.len(),
    ensures
        ({
            let loc = relocs[i].0;
            let t = defs[relocs[i].1 as int]->Some_0;
            crate::model::patch_dynamics(s, base, relocs, defs).subrange(
                loc.end - base - loc.size,
                loc.end - base,
            ) == disp_bytes(t - loc.end, loc.size as nat)
        }),
    decreases relocs.len(),
{
    let loc = relocs[i].0;
    let prev = crate::model::patch_dynamics(s, base, relocs.drop_last(), defs);
    let whole = crate::model::patch_dynamics(s, base, relocs, defs);
    assert(forall|j: int|
        0 <= j < relocs.drop_last().len() ==> loc_in(
            #[trigger] relocs.drop_last()[j].0,
            base,
            s.len(),
        ));
    lemma_patch_dynamics_len(s, base, relocs.drop_last(), defs);
    lemma_patch_dynamics_len(s, base, relocs, defs);
    let last = relocs[relocs.len() - 1];
    assert(last.1 < defs.len() && defs[last.1 as int] is Some);
    let tl = defs[last.1 as int]->Some_0;
    assert(whole == patch_one(prev, base, last.0, tl as nat));
    lemma_patch_one(prev, base, last.0, tl as nat);
    if i == relocs.len() - 1 {
    } else {
        assert(forall|j: int, k: int|
            0 <= j < relocs.drop_last().len() && 0 <= k < relocs.drop_last().len() && j != k
                ==> fields_disjoint(
                #[trigger] relocs.drop_last()[j].0,
                #[trigger] relocs.drop_last()[k].0,
            ));
        lemma_patch_dynamics_field_reads_back(s, base, relocs.drop_last(), defs, i);
        assert(fields_disjoint(loc, last.0));
        assert forall|k: int|
            loc.end - base - loc.size <= k < loc.end - base implies whole[k] == prev[k] by {
            assert(loc_in(loc, base, s.len()));
            assert(loc_in(last.0, base, s.len()));
        }
        assert(whole.subrange(loc.end - base - loc.size, loc.end - base) =~= prev.subrange(
            loc.end - base - loc.size,
            loc.end - base,
        ));
    }
}

/// Displacement correctness at the commit protocol, global side: after the
/// full resolution of a state whose relocation fields are pairwise
/// disjoint, the field of every global relocation, read as a little-endian
/// signed integer, is the displacement from its end to its label.
pub proof fn lemma_resolved_global_field_reads_back(m: AsmModel, i: int)
    requires
        wf_model(m),
        crate::model::globals_resolved(m.global_relocs, m.global_defs),
        crate::model::dynamics_resolved(m.dynamic_relocs, m.dynamic_defs),
        forall|j: int, k: int|
            0 <= j < m.global_relocs.len() && 0 <= k < m.global_relocs.len() && j != k
                ==> fields_disjoint(#[trigger] m.global_relocs[j].0, #[trigger] m.global_relocs[k].0),
        forall|j: int, k: int|
            0 <= j < m.global_relocs.len() && 0 <= k < m.dynamic_relocs.len() ==> fields_disjoint(
                #[trigger] m.global_relocs[j].0,
                #[trigger] m.dynamic_relocs[k].0,
            ),
        0 <= i < m.global_relocs.len(),
        disp_fits(
            lookup(m.global_defs, m.global_relocs[i].1)->Some_0 - m.global_relocs[i].0.end,
            m.global_relocs[i].0.size as nat,
        ),
    ensures
        ({
            let loc = m.global_relocs[i].0;
            let t = lookup(m.global_defs, m.global_relocs[i].1)->Some_0;
            le_signed(
                resolved_ops(m).subrange(loc.end - m.start - loc.size, loc.end - m.start),
            ) == t - loc.end
        }),
{
    let loc = m.global_relocs[i].0;
    let t = lookup(m.global_defs, m.global_relocs[i].1)->Some_0;
    let after_g = crate::model::patch_globals(m.ops, m.start, m.global_relocs, m.global_defs);
    lemma_patch_globals_field_reads_back(m.ops, m.start, m.global_relocs, m.global_defs, i);
    crate::model::lemma_patch_globals_len(m.ops, m.start, m.global_relocs, m.global_defs);
    assert(forall|j: int|
        0 <= j < m.dynamic_relocs.len() ==> loc_in(
            #[trigger] m.dynamic_relocs[j].0,
            m.start,
            after_g.len(),
        ));
    lemma_patch_dynamics_len(after_g, m.start, m.dynamic_relocs, m.dynamic_defs);
    assert forall|k: int|
        loc.end - m.start - loc.size <= k < loc.end - m.start implies resolved_ops(m)[k]
        == after_g[k] by {
        assert(loc_in(loc, m.start, m.ops.len()));
        assert(forall|j: int|
            0 <= j < m.dynamic_relocs.len() ==> !((#[trigger] m.dynamic_relocs[j].0).end - m.start
                - m.dynamic_relocs[j].0.size <= k < m.dynamic_relocs[j].0.end - m.start));
        lemma_patch_dynamics_outside(after_g, m.start, m.dynamic_relocs, m.dynamic_defs, k);
    }
    assert(resolved_ops(m).subrange(loc.end - m.start - loc.size, loc.end - m.start)
        =~= after_g.subrange(loc.end - m.start - loc.size, loc.end - m.start));
    lemma_displacement_roundtrip(t - loc.end, loc.size as nat);
}

/// Displacement correctness at the commit protocol, dynamic side: under
/// the same disjointness, the field of every dynamic relocation reads back
/// as the displacement from its end to its label.
pub proof fn lemma_resolved_dynamic_field_reads_back(m: AsmModel, i: int)
    requires
        wf_model(m),
        crate::model::globals_resolved(m.global_relocs, m.global_defs),
        crate::model::dynamics_resolved(m.dynamic_relocs, m.dynamic_defs),
        forall|j: int, k: int|
            0 <= j < m.dynamic_relocs.len() && 0 <= k < m.dynamic_relocs.len() && j != k
                ==> fields_disjoint(
                #[trigger] m.dynamic_relocs[j].0,
                #[trigger] m.dynamic_relocs[k].0,
            ),
        0 <= i < m.dynamic_relocs.len(),
        disp_fits(
            m.dynamic_defs[m.dynamic_relocs[i].1 as int]->Some_0 - m.dynamic_relocs[i].0.end,
            m.dynamic_relocs[i].0.size as nat,
        ),
    ensures
        ({
            let loc = m.dynamic_relocs[i].0;
            let t = m.dynamic_defs[m.dynamic_relocs[i].1 as int]->Some_0;
            le_signed(
                resolved_ops(m).subrange(loc.end - m.start - loc.size, loc.end - m.start),
            ) == t - loc.end
        }),
{
    let loc = m.dynamic_relocs[i].0;
    let t = m.dynamic_defs[m.dynamic_relocs[i].1 as int]->Some_0;
    let after_g = crate::model::patch_globals(m.ops, m.start, m.global_relocs, m.global_defs);
    crate::model::lemma_patch_globals_len(m.ops, m.start, m.global_relocs, m.global_defs);
    assert(forall|j: int|
        0 <= j < m.dynamic_relocs.len() ==> loc_in(
            #[trigger] m.dynamic_relocs[j].0,
            m.start,
            after_g.len(),
        ));
    lemma_patch_dynamics_field_reads_back(after_g, m.start, m.dynamic_relocs, m.dynamic_defs, i);
    lemma_displacement_roundtrip(t - loc.end, loc.size as nat);
}

/// A forward reference patches to the later definition: queue a reference
/// to `name`, emit any further bytes, then define `name`; the field holds
/// the displacement from its end to that later offset.
pub proof fn lemma_forward_reloc_then_local_label(
    m: AsmModel,
    name: Seq<char>,
    size: u8,
    filler: Seq<u8>,
)
    requires
        wf_model(m),
        valid_size(size),
        size as nat <= m.ops.len(),
        pending_for(m.local_relocs, name).len() == 0,
        offset_of(m) + filler.len() <= usize::MAX,
    ensures
        ({
            let end = offset_of(m);
            let m1 = AsmModel {
                local_relocs: m.local_relocs.push((name, PatchLoc { end: end as usize, size })),
                ..m
            };
            let m2 = AsmModel { ops: m1.ops + filler, ..m1 };
            let m3 = local_label_model(m2, name);
            let t = offset_of(m2);
            &&& m3.ops.subrange(end - m.start - size, end - m.start) == disp_bytes(
                t - end,
                size as nat,
            )
            &&& lookup(m3.local_defs, name) == Some(t as usize)
            &&& pending_for(m3.local_relocs, name).len() == 0
        }),
{
    let end = offset_of(m);
    let loc = PatchLoc { end: end as usize, size };
    let m1 = AsmModel { local_relocs: m.local_relocs.push((name, loc)), ..m };
    let m2 = AsmModel { ops: m1.ops + filler, ..m1 };
    let t = offset_of(m2);
    assert(m2.local_relocs.push((name, loc)).drop_last() =~= m2.local_relocs) by {
        assert(m1.local_relocs.drop_last() =~= m.local_relocs);
    }
    assert(m2.local_relocs.drop_last() =~= m.local_relocs);
    assert(pending_for(m2.local_relocs, name) =~= seq![loc]);
    let pend = pending_for(m2.local_relocs, name);
    assert(pend.drop_last() =~= Seq::<PatchLoc>::empty());
    assert(patch_list(m2.ops, m2.start, pend, t) == patch_one(
        patch_list(m2.ops, m2.start, pend.drop_last(), t),
        m2.start,
        loc,
        t,
    ));
    assert(patch_list(m2.ops, m2.start, pend.drop_last(), t) == m2.ops);
    assert(loc_in(loc, m2.start, m2.ops.len()));
    lemma_patch_one(m2.ops, m2.start, loc, t);
    lemma_definition_overrides(m.local_defs, name, t as usize);
    crate::model::lemma_without_name_locs(m2.local_relocs, name, m2.start, m2.ops.len());
    let m3 = local_label_model(m2, name);
    assert(pending_for(m3.local_relocs, name).len() == 0) by {
        lemma_pending_of_without(m2.local_relocs, name);
    }
}

/// Dropping the pending patches of a name leaves none pending for it.
proof fn lemma_pending_of_without(relocs: Seq<(Seq<char>, PatchLoc)>, name: Seq<char>)
    ensures
        pending_for(crate::model::without_name(relocs, name), name).len() == 0,
    decreases relocs.len(),
{
    if relocs.len() > 0 {
        lemma_pending_of_without(relocs.drop_last(), name);
        let rest = crate::model::without_name(relocs.drop_last(), name);
        if relocs.last().0 != name {
            assert(crate::model::without_name(relocs, name) == rest.push(relocs.last()));
            assert(rest.push(relocs.last()).drop_last() =~= rest);
        }
    }
}

/// A backward reference patches to the most recent earlier definition:
/// with `name` defined, patching at the current offset writes the
/// displacement from here back to that definition.
pub proof fn lemma_local_label_then_backward_reloc(m: AsmModel, name: Seq<char>, size: u8)
    requires
        wf_model(m),
        valid_size(size),
        size as nat <= m.ops.len(),
        lookup(m.local_defs, name) is Some,
    ensures
        ({
            let end = offset_of(m);
            let t = lookup(m.local_defs, name)->Some_0;
            patch_one(m.ops, m.start, PatchLoc { end: end as usize, size }, t as nat).subrange(
                end - m.start - size,
                end - m.start,
            ) == disp_bytes(t - end, size as nat)
        }),
{
    let end = offset_of(m);
    let loc = PatchLoc { end: end as usize, size };
    assert(loc_in(loc, m.start, m.ops.len()));
    lemma_patch_one(m.ops, m.start, loc, lookup(m.local_defs, name)->Some_0 as nat);
}

} // verus!
