//! The mathematical model of the assembler state.
//!
//! Every executable operation of the assembler is specified as a transition
//! on an `AsmModel`: the published mapping bytes, the staging bytes, and
//! the label and relocation tables, all as plain sequences. The laws about
//! sequences of operations are proved over these transitions.
use vstd::prelude::*;
use crate::disp::valid_size;
use crate::disp::disp_bytes;
use crate::disp::splice;

verus! {

/// One pending relocation: the absolute offset of the byte just past the
/// field, and the field width in bytes. The field itself occupies
/// `[end - size, end)`.
#[derive(Clone, Copy, PartialEq, Eq, Structural, Debug)]
pub struct PatchLoc {
    pub end: usize,
    pub size: u8,
}

/// The state of an assembler, as plain mathematical values.
#[verifier::ext_equal]
pub struct AsmModel {
    /// The whole backing store of the executable mapping.
    pub published: Seq<u8>,
    /// The absolute offset at which staging byte 0 logically lives; also
    /// the number of published code bytes.
    pub start: nat,
    /// The staging bytes not yet committed.
    pub ops: Seq<u8>,
    /// Global label definitions, in definition order.
    pub global_defs: Seq<(Seq<char>, usize)>,
    /// Pending global relocations, in record order.
    pub global_relocs: Seq<(PatchLoc, Seq<char>)>,
    /// Dynamic label slots, `None` until defined.
    pub dynamic_defs: Seq<Option<usize>>,
    /// Pending dynamic relocations, in record order.
    pub dynamic_relocs: Seq<(PatchLoc, usize)>,
    /// Local label definitions, in definition order; a later entry for the
    /// same name overrides an earlier one.
    pub local_defs: Seq<(Seq<char>, usize)>,
    /// Pending forward references to local labels, in record order.
    pub local_relocs: Seq<(Seq<char>, PatchLoc)>,
}

/// The absolute offset of the next byte to be emitted.
pub open spec fn offset_of(m: AsmModel) -> nat {
    m.start + m.ops.len()
}

/// The live code length of an assembler at rest: exactly the staging
/// window's start, since every commit advances the window past what it
/// publishes and an alteration restores it. This is the `len` of the
/// shared mapping, and `max(live_len(m), offset_of(m))` after a commit is
/// simply `offset_of(m)`.
pub open spec fn live_len(m: AsmModel) -> nat {
    m.start
}

/// The most recent definition of `name`, if any.
pub open spec fn lookup(defs: Seq<(Seq<char>, usize)>, name: Seq<char>) -> Option<usize>
    decreases defs.len(),
{
    if defs.len() == 0 {
        None
    } else if defs.last().0 == name {
        Some(defs.last().1)
    } else {
        lookup(defs.drop_last(), name)
    }
}

/// The pending patches recorded for `name`, oldest first.
pub open spec fn pending_for(relocs: Seq<(Seq<char>, PatchLoc)>, name: Seq<char>) -> Seq<PatchLoc>
    decreases relocs.len(),
{
    if relocs.len() == 0 {
        Seq::empty()
    } else {
        let rest = pending_for(relocs.drop_last(), name);
        if relocs.last().0 == name {
            rest.push(relocs.last().1)
        } else {
            rest
        }
    }
}

/// The pending patches recorded for other names, in their order.
pub open spec fn without_name(relocs: Seq<(Seq<char>, PatchLoc)>, name: Seq<char>) -> Seq<
    (Seq<char>, PatchLoc),
>
    decreases relocs.len(),
{
    if relocs.len() == 0 {
        Seq::empty()
    } else {
        let rest = without_name(relocs.drop_last(), name);
        if relocs.last().0 == name {
            rest
        } else {
            rest.push(relocs.last())
        }
    }
}

/// The field of `loc` lies inside a byte string of length `len` whose byte
/// 0 lives at absolute offset `base`, and the width is one the assembler
/// understands.
pub open spec fn loc_in(loc: PatchLoc, base: nat, len: nat) -> bool {
    valid_size(loc.size) && base + loc.size <= loc.end && loc.end <= base + len
}

/// Write the displacement `target - loc.end` into the field of `loc`
/// within a byte string whose byte 0 lives at absolute offset `base`.
pub open spec fn patch_one(s: Seq<u8>, base: nat, loc: PatchLoc, target: nat) -> Seq<u8> {
    splice(s, loc.end - base - loc.size, disp_bytes(target - loc.end, loc.size as nat))
}

/// Apply the patches of `locs` in order, all against the same target.
pub open spec fn patch_list(s: Seq<u8>, base: nat, locs: Seq<PatchLoc>, target: nat) -> Seq<u8>
    decreases locs.len(),
{
    if locs.len() == 0 {
        s
    } else {
        patch_one(patch_list(s, base, locs.drop_last(), target), base, locs.last(), target)
    }
}

/// Every pending global relocation refers to a defined global label.
pub open spec fn globals_resolved(
    relocs: Seq<(PatchLoc, Seq<char>)>,
    defs: Seq<(Seq<char>, usize)>,
) -> bool {
    forall|i: int| 0 <= i < relocs.len() ==> lookup(defs, #[trigger] relocs[i].1) is Some
}

/// Every pending dynamic relocation refers to a defined dynamic label.
pub open spec fn dynamics_resolved(
    relocs: Seq<(PatchLoc, usize)>,
    defs: Seq<Option<usize>>,
) -> bool {
    forall|i: int|
        0 <= i < relocs.len() ==> (#[trigger] relocs[i].1 < defs.len() && defs[relocs[i].1 as int]
            is Some)
}

/// Apply the pending global relocations in record order.
pub open spec fn patch_globals(
    s: Seq<u8>,
    base: nat,
    relocs: Seq<(PatchLoc, Seq<char>)>,
    defs: Seq<(Seq<char>, usize)>,
) -> Seq<u8>
    decreases relocs.len(),
{
    if relocs.len() == 0 {
        s
    } else {
        let prev = patch_globals(s, base, relocs.drop_last(), defs);
        match lookup(defs, relocs.last().1) {
            Some(t) => patch_one(prev, base, relocs.last().0, t as nat),
            None => prev,
        }
    }
}

/// Apply the pending dynamic relocations in record order.
pub open spec fn patch_dynamics(
    s: Seq<u8>,
    base: nat,
    relocs: Seq<(PatchLoc, usize)>,
    defs: Seq<Option<usize>>,
) -> Seq<u8>
    decreases relocs.len(),
{
    if relocs.len() == 0 {
        s
    } else {
        let prev = patch_dynamics(s, base, relocs.drop_last(), defs);
        if relocs.last().1 < defs.len() && defs[relocs.last().1 as int] is Some {
            patch_one(prev, base, relocs.last().0, defs[relocs.last().1 as int]->Some_0 as nat)
        } else {
            prev
        }
    }
}

/// The staging bytes with every pending global and dynamic relocation
/// resolved.
pub open spec fn resolved_ops(m: AsmModel) -> Seq<u8> {
    patch_dynamics(
        patch_globals(m.ops, m.start, m.global_relocs, m.global_defs),
        m.start,
        m.dynamic_relocs,
        m.dynamic_defs,
    )
}

/// A commit can run to completion: every reference resolves and no forward
/// local reference is left open. An empty staging buffer commits trivially.
pub open spec fn commit_ready(m: AsmModel) -> bool {
    m.ops.len() == 0 || (globals_resolved(m.global_relocs, m.global_defs) && dynamics_resolved(
        m.dynamic_relocs,
        m.dynamic_defs,
    ) && m.local_relocs.len() == 0)
}

/// The capacity of the mapping after a commit of `end` total bytes against
/// a mapping of capacity `cap`: unchanged while the code fits, else doubled
/// or raised to `end`, whichever is larger and still addressable.
pub open spec fn grown_cap(end: nat, cap: nat) -> nat {
    if end <= cap {
        cap
    } else if cap <= usize::MAX as nat / 2 && 2 * cap > end {
        2 * cap
    } else {
        end
    }
}

/// The commit transition: resolve the pending relocations, move the staging
/// bytes into the mapping (growing it when they do not fit), and advance
/// `start` past them.
pub open spec fn commit_model(m: AsmModel) -> AsmModel {
    if m.ops.len() == 0 {
        m
    } else {
        let resolved = resolved_ops(m);
        let end = m.start + m.ops.len();
        let published = if end <= m.published.len() {
            splice(m.published, m.start as int, resolved)
        } else {
            m.published.take(m.start as int) + resolved + Seq::new(
                (grown_cap(end, m.published.len()) - end) as nat,
                |i: int| 0u8,
            )
        };
        AsmModel {
            published,
            start: end,
            ops: Seq::empty(),
            global_relocs: Seq::empty(),
            dynamic_relocs: Seq::empty(),
            ..m
        }
    }
}

/// The number of padding bytes needed to advance `off` to a multiple of
/// `alignment`.
pub open spec fn align_padding(off: nat, alignment: nat) -> nat {
    if off % alignment == 0 {
        0
    } else {
        (alignment - off % alignment) as nat
    }
}

/// The local-label transition: patch every pending forward reference to
/// `name` to the current offset, drop them, and record the definition.
pub open spec fn local_label_model(m: AsmModel, name: Seq<char>) -> AsmModel {
    let t = offset_of(m);
    AsmModel {
        ops: patch_list(m.ops, m.start, pending_for(m.local_relocs, name), t),
        local_defs: m.local_defs.push((name, t as usize)),
        local_relocs: without_name(m.local_relocs, name),
        ..m
    }
}

/// Patching a field inside a byte string replaces exactly that field with
/// the encoded displacement and leaves every other byte alone.
pub proof fn lemma_patch_one(s: Seq<u8>, base: nat, loc: PatchLoc, target: nat)
    requires
        loc_in(loc, base, s.len()),
    ensures
        patch_one(s, base, loc, target).len() == s.len(),
        patch_one(s, base, loc, target).subrange(
            loc.end - base - loc.size,
            loc.end - base,
        ) == disp_bytes(target - loc.end, loc.size as nat),
        forall|k: int|
            0 <= k < s.len() && !(loc.end - base - loc.size <= k < loc.end - base)
                ==> patch_one(s, base, loc, target)[k] == s[k],
{
    let at = loc.end - base - loc.size;
    let sub = disp_bytes(target - loc.end, loc.size as nat);
    crate::disp::lemma_disp_bytes_len(target - loc.end, loc.size as nat);
    let r = patch_one(s, base, loc, target);
    assert(r.len() == s.len());
    assert(r.subrange(at, loc.end - base) =~= sub);
    assert forall|k: int|
        0 <= k < s.len() && !(at <= k < loc.end - base) implies r[k] == s[k] by {
        if k < at {
            assert(r[k] == s.take(at)[k]);
        }
    }
}

/// Applying a list of in-bounds patches preserves the length.
pub proof fn lemma_patch_list_len(s: Seq<u8>, base: nat, locs: Seq<PatchLoc>, target: nat)
    requires
        forall|i: int| 0 <= i < locs.len() ==> loc_in(#[trigger] locs[i], base, s.len()),
    ensures
        patch_list(s, base, locs, target).len() == s.len(),
    decreases locs.len(),
{
    if locs.len() > 0 {
        lemma_patch_list_len(s, base, locs.drop_last(), target);
        lemma_patch_one(patch_list(s, base, locs.drop_last(), target), base, locs.last(), target);
    }
}

/// Resolving in-bounds global relocations preserves the length.
pub proof fn lemma_patch_globals_len(
    s: Seq<u8>,
    base: nat,
    relocs: Seq<(PatchLoc, Seq<char>)>,
    defs: Seq<(Seq<char>, usize)>,
)
    requires
        forall|i: int| 0 <= i < relocs.len() ==> loc_in(#[trigger] relocs[i].0, base, s.len()),
    ensures
        patch_globals(s, base, relocs, defs).len() == s.len(),
    decreases relocs.len(),
{
    if relocs.len() > 0 {
        lemma_patch_globals_len(s, base, relocs.drop_last(), defs);
        if lookup(defs, relocs.last().1) is Some {
            lemma_patch_one(
                patch_globals(s, base, relocs.drop_last(), defs),
                base,
                relocs.last().0,
                lookup(defs, relocs.last().1)->Some_0 as nat,
            );
        }
    }
}

/// Resolving in-bounds dynamic relocations preserves the length.
pub proof fn lemma_patch_dynamics_len(
    s: Seq<u8>,
    base: nat,
    relocs: Seq<(PatchLoc, usize)>,
    defs: Seq<Option<usize>>,
)
    requires
        forall|i: int| 0 <= i < relocs.len() ==> loc_in(#[trigger] relocs[i].0, base, s.len()),
    ensures
        patch_dynamics(s, base, relocs, defs).len() == s.len(),
    decreases relocs.len(),
{
    if relocs.len() > 0 {
        lemma_patch_dynamics_len(s, base, relocs.drop_last(), defs);
        let last = relocs.last();
        if last.1 < defs.len() && defs[last.1 as int] is Some {
            lemma_patch_one(
                patch_dynamics(s, base, relocs.drop_last(), defs),
                base,
                last.0,
                defs[last.1 as int]->Some_0 as nat,
            );
        }
    }
}

/// Every patch pending for `name` was recorded in the list.
pub proof fn lemma_pending_for_locs(
    relocs: Seq<(Seq<char>, PatchLoc)>,
    name: Seq<char>,
    base: nat,
    len: nat,
)
    requires
        forall|i: int| 0 <= i < relocs.len() ==> loc_in(#[trigger] relocs[i].1, base, len),
    ensures
        forall|i: int|
            0 <= i < pending_for(relocs, name).len() ==> loc_in(
                #[trigger] pending_for(relocs, name)[i],
                base,
                len,
            ),
    decreases relocs.len(),
{
    if relocs.len() > 0 {
        assert(forall|i: int|
            0 <= i < relocs.drop_last().len() ==> loc_in(
                #[trigger] relocs.drop_last()[i].1,
                base,
                len,
            ));
        lemma_pending_for_locs(relocs.drop_last(), name, base, len);
        let rest = pending_for(relocs.drop_last(), name);
        if relocs.last().0 == name {
            assert(loc_in(relocs[relocs.len() - 1].1, base, len));
            assert forall|i: int|
                0 <= i < pending_for(relocs, name).len() implies loc_in(
                #[trigger] pending_for(relocs, name)[i],
                base,
                len,
            ) by {
                if i < rest.len() {
                    assert(pending_for(relocs, name)[i] == rest[i]);
                } else {
                    assert(pending_for(relocs, name)[i] == relocs.last().1);
                }
            }
        }
    }
}

/// Every patch kept by `without_name` was recorded in the list.
pub proof fn lemma_without_name_locs(
    relocs: Seq<(Seq<char>, PatchLoc)>,
    name: Seq<char>,
    base: nat,
    len: nat,
)
    requires
        forall|i: int| 0 <= i < relocs.len() ==> loc_in(#[trigger] relocs[i].1, base, len),
    ensures
        forall|i: int|
            0 <= i < without_name(relocs, name).len() ==> loc_in(
                #[trigger] without_name(relocs, name)[i].1,
                base,
                len,
            ),
    decreases relocs.len(),
{
    if relocs.len() > 0 {
        assert(forall|i: int|
            0 <= i < relocs.drop_last().len() ==> loc_in(
                #[trigger] relocs.drop_last()[i].1,
                base,
                len,
            ));
        lemma_without_name_locs(relocs.drop_last(), name, base, len);
        let rest = without_name(relocs.drop_last(), name);
        if relocs.last().0 != name {
            assert(loc_in(relocs[relocs.len() - 1].1, base, len));
            assert forall|i: int|
                0 <= i < without_name(relocs, name).len() implies loc_in(
                #[trigger] without_name(relocs, name)[i].1,
                base,
                len,
            ) by {
                if i < rest.len() {
                    assert(without_name(relocs, name)[i] == rest[i]);
                } else {
                    assert(without_name(relocs, name)[i] == relocs.last());
                }
            }
        }
    }
}

/// The well-formedness of an assembler state: offsets fit the machine,
/// the published prefix lies inside the mapping, and every pending
/// relocation field lies inside the staging bytes.
pub open spec fn wf_model(m: AsmModel) -> bool {
    &&& m.start + m.ops.len() <= usize::MAX
    &&& m.start <= m.published.len()
    &&& m.published.len() <= usize::MAX
    &&& forall|i: int|
        0 <= i < m.global_relocs.len() ==> loc_in(
            #[trigger] m.global_relocs[i].0,
            m.start,
            m.ops.len(),
        )
    &&& forall|i: int|
        0 <= i < m.dynamic_relocs.len() ==> loc_in(
            #[trigger] m.dynamic_relocs[i].0,
            m.start,
            m.ops.len(),
        )
    &&& forall|i: int|
        0 <= i < m.local_relocs.len() ==> loc_in(
            #[trigger] m.local_relocs[i].1,
            m.start,
            m.ops.len(),
        )
}

} // verus!
