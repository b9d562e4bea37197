//! The assembler: emit API, label bookkeeping, and the commit protocol.
//!
//! The assembler owns the authoritative program image as plain bytes; the
//! executable mapping that `Executor` handles read is shared through a
//! reference-counted readers-writer lock and receives a copy of the image
//! under the exclusive lock at every commit and alteration. The lock only
//! ever stores the executable state of the mapping; writable values exist
//! only as the assembler's private copies of the image, never shared.
//! Every contract about published bytes speaks of the image, which the
//! assembler alone writes; what a reader returns is bounded through the
//! lock's invariant alone.
use vstd::prelude::*;
use vstd::rwlock::RwLock;
use vstd::rwlock::RwLockPredicate;
use std::sync::Arc;
use crate::AssemblyOffset;
use crate::DynamicLabel;
use crate::AsmError;
use crate::buffer::ExecutableBuffer;
use crate::buffer::MutableBuffer;
use crate::model::AsmModel;
use crate::model::PatchLoc;
use crate::model::offset_of;
use crate::model::live_len;
use crate::model::lookup;
use crate::model::loc_in;
use crate::model::patch_one;
use crate::model::patch_list;
use crate::model::patch_globals;
use crate::model::patch_dynamics;
use crate::model::pending_for;
use crate::model::without_name;
use crate::model::globals_resolved;
use crate::model::dynamics_resolved;
use crate::model::resolved_ops;
use crate::model::commit_ready;
use crate::model::commit_model;
use crate::model::local_label_model;
use crate::model::align_padding;
use crate::model::grown_cap;
use crate::model::wf_model;
use crate::model::lemma_patch_one;
use crate::model::lemma_patch_list_len;
use crate::model::lemma_patch_globals_len;
use crate::model::lemma_patch_dynamics_len;
use crate::model::lemma_pending_for_locs;
use crate::model::lemma_without_name_locs;
use crate::tables::defs_view;
use crate::tables::grelocs_view;
use crate::tables::lrelocs_view;
use crate::tables::lookup_def;
use crate::tables::patch_vec;
use crate::tables::drain_matching;
use crate::disp::valid_size;
use crate::disp::splice;
use crate::disp::displacement_field;

verus! {

/// The size of the initial executable mapping.
pub const MMAP_INIT_SIZE: usize = 4096;

/// The lock invariant of the shared mapping: the backing store has the
/// fixed capacity the lock was created for, and the live length fits it.
pub struct CapPred {
    pub cap: nat,
}

impl RwLockPredicate<ExecutableBuffer> for CapPred {
    open spec fn inv(self, v: ExecutableBuffer) -> bool {
        v.bytes().len() == self.cap && v.wf()
    }
}

/// The label and relocation tables.
pub struct Tables {
    pub(crate) global_defs: Vec<(&'static str, usize)>,
    pub(crate) global_relocs: Vec<(PatchLoc, &'static str)>,
    pub(crate) dynamic_defs: Vec<Option<usize>>,
    pub(crate) dynamic_relocs: Vec<(PatchLoc, usize)>,
    pub(crate) local_defs: Vec<(&'static str, usize)>,
    pub(crate) local_relocs: Vec<(&'static str, PatchLoc)>,
}

impl Tables {
    /// Fresh, empty tables.
    pub(crate) fn empty() -> (r: Tables)
        ensures
            defs_view(r.global_defs@) == Seq::<(Seq<char>, usize)>::empty(),
            grelocs_view(r.global_relocs@) == Seq::<(PatchLoc, Seq<char>)>::empty(),
            r.dynamic_defs@ == Seq::<Option<usize>>::empty(),
            r.dynamic_relocs@ == Seq::<(PatchLoc, usize)>::empty(),
            defs_view(r.local_defs@) == Seq::<(Seq<char>, usize)>::empty(),
            lrelocs_view(r.local_relocs@) == Seq::<(Seq<char>, PatchLoc)>::empty(),
    {
        let r = Tables {
            global_defs: Vec::new(),
            global_relocs: Vec::new(),
            dynamic_defs: Vec::new(),
            dynamic_relocs: Vec::new(),
            local_defs: Vec::new(),
            local_relocs: Vec::new(),
        };
        proof {
            assert(defs_view(r.global_defs@) =~= Seq::<(Seq<char>, usize)>::empty());
            assert(grelocs_view(r.global_relocs@) =~= Seq::<(PatchLoc, Seq<char>)>::empty());
            assert(defs_view(r.local_defs@) =~= Seq::<(Seq<char>, usize)>::empty());
            assert(lrelocs_view(r.local_relocs@) =~= Seq::<(Seq<char>, PatchLoc)>::empty());
        }
        r
    }
}

/// Relies on `Arc::clone`: the clone is a handle to the same allocation,
/// so it carries the same value.
#[verifier::external_body]
fn arc_clone(a: &Arc<RwLock<ExecutableBuffer, CapPred>>) -> (r: Arc<
    RwLock<ExecutableBuffer, CapPred>,
>)
    ensures
        r == *a,
{
    Arc::clone(a)
}

/// Relies on `Arc::try_unwrap`: yields the inner value when the given
/// handle is the only one, and otherwise gives the same handle back.
#[verifier::external_body]
fn arc_try_unwrap(a: Arc<RwLock<ExecutableBuffer, CapPred>>) -> (r: Result<
    RwLock<ExecutableBuffer, CapPred>,
    Arc<RwLock<ExecutableBuffer, CapPred>>,
>)
    ensures
        match r {
            Ok(v) => v == a,
            Err(e) => e == a,
        },
{
    Arc::try_unwrap(a)
}

/// The assembler: staging buffer, label tables, and the shared executable
/// mapping.
pub struct Assembler {
    pub(crate) execbuffer: Arc<RwLock<ExecutableBuffer, CapPred>>,
    pub(crate) map_len: usize,
    pub(crate) image: Vec<u8>,
    pub(crate) asmoffset: usize,
    pub(crate) ops: Vec<u8>,
    pub(crate) tables: Tables,
}

/// A shared read handle over the published mapping. It keeps the mapping
/// alive and, while a read is in progress, blocks the commit protocol's
/// exclusive writes. Cloning it clones the shared handle.
#[derive(Clone)]
pub struct Executor {
    pub(crate) execbuffer: Arc<RwLock<ExecutableBuffer, CapPred>>,
}

impl View for Assembler {
    type V = AsmModel;

    closed spec fn view(&self) -> AsmModel {
        AsmModel {
            published: self.image@,
            start: self.asmoffset as nat,
            ops: self.ops@,
            global_defs: defs_view(self.tables.global_defs@),
            global_relocs: grelocs_view(self.tables.global_relocs@),
            dynamic_defs: self.tables.dynamic_defs@,
            dynamic_relocs: self.tables.dynamic_relocs@,
            local_defs: defs_view(self.tables.local_defs@),
            local_relocs: lrelocs_view(self.tables.local_relocs@),
        }
    }
}

impl Assembler {
    /// The state is well formed: the model is well formed, and the shared
    /// lock is tied to the model's mapping capacity.
    pub closed spec fn wf(&self) -> bool {
        &&& wf_model(self@)
        &&& (*self.execbuffer).pred() == (CapPred { cap: self.map_len as nat })
        &&& self.map_len as nat == self.image@.len()
    }

    /// A well-formed assembler has a well-formed model.
    pub proof fn lemma_wf_model(&self)
        requires
            self.wf(),
        ensures
            wf_model(self@),
    {
    }

    /// Create an assembler over a fresh zeroed mapping of
    /// `MMAP_INIT_SIZE` bytes with no live code.
    pub fn new() -> (r: Assembler)
        ensures
            r.wf(),
            r@.published == Seq::new(MMAP_INIT_SIZE as nat, |i: int| 0u8),
            r@.start == 0,
            live_len(r@) == 0,
            r@.ops == Seq::<u8>::empty(),
            r@.global_defs == Seq::<(Seq<char>, usize)>::empty(),
            r@.global_relocs == Seq::<(PatchLoc, Seq<char>)>::empty(),
            r@.dynamic_defs == Seq::<Option<usize>>::empty(),
            r@.dynamic_relocs == Seq::<(PatchLoc, usize)>::empty(),
            r@.local_defs == Seq::<(Seq<char>, usize)>::empty(),
            r@.local_relocs == Seq::<(Seq<char>, PatchLoc)>::empty(),
    {
        let buf = ExecutableBuffer::new(0, MMAP_INIT_SIZE);
        let mut image: Vec<u8> = Vec::new();
        let mut i: usize = 0;
        while i < MMAP_INIT_SIZE
            invariant
                i <= MMAP_INIT_SIZE,
                image@ == Seq::new(i as nat, |j: int| 0u8),
            decreases MMAP_INIT_SIZE - i,
        {
            image.push(0u8);
            proof {
                assert(image@ =~= Seq::new((i + 1) as nat, |j: int| 0u8));
            }
            i = i + 1;
        }
        let lock = RwLock::<ExecutableBuffer, CapPred>::new(
            buf,
            Ghost(CapPred { cap: MMAP_INIT_SIZE as nat }),
        );
        Assembler {
            execbuffer: Arc::new(lock),
            map_len: MMAP_INIT_SIZE,
            image,
            asmoffset: 0,
            ops: Vec::new(),
            tables: Tables::empty(),
        }
    }

    /// The absolute offset of the next byte to be emitted.
    pub fn offset(&self) -> (r: AssemblyOffset)
        requires
            self.wf(),
        ensures
            r.0 as nat == offset_of(self@),
    {
        AssemblyOffset(self.ops.len() + self.asmoffset)
    }

    /// Append one byte to the staging buffer.
    pub fn push(&mut self, value: u8)
        requires
            old(self).wf(),
            offset_of(old(self)@) + 1 <= usize::MAX,
        ensures
            final(self).wf(),
            final(self)@ == (AsmModel { ops: old(self)@.ops.push(value), ..old(self)@ }),
    {
        self.ops.push(value);
    }

    /// Append a byte string to the staging buffer.
    pub fn extend(&mut self, bytes: &[u8])
        requires
            old(self).wf(),
            offset_of(old(self)@) + bytes@.len() <= usize::MAX,
        ensures
            final(self).wf(),
            final(self)@ == (AsmModel { ops: old(self)@.ops + bytes@, ..old(self)@ }),
    {
        let n = bytes.len();
        let mut i: usize = 0;
        while i < n
            invariant
                i <= n,
                n == bytes@.len(),
                old(self).wf(),
                offset_of(old(self)@) + bytes@.len() <= usize::MAX,
                self.execbuffer == old(self).execbuffer,
                self.map_len == old(self).map_len,
                self.image == old(self).image,
                self.asmoffset == old(self).asmoffset,
                self.tables == old(self).tables,
                self.ops@ == old(self).ops@ + bytes@.take(i as int),
            decreases n - i,
        {
            let b = bytes[i];
            self.ops.push(b);
            proof {
                assert(self.ops@ =~= old(self).ops@ + bytes@.take(i + 1));
            }
            i = i + 1;
        }
        proof {
            assert(bytes@.take(n as int) =~= bytes@);
            assert(final(self)@ =~= (AsmModel { ops: old(self)@.ops + bytes@, ..old(self)@ }));
        }
    }

    /// Pad with `0x90` bytes until the offset is a multiple of
    /// `alignment`.
    pub fn align(&mut self, alignment: usize)
        requires
            old(self).wf(),
            alignment >= 1,
            offset_of(old(self)@) + alignment <= usize::MAX,
        ensures
            final(self).wf(),
            final(self)@ == (AsmModel {
                ops: old(self)@.ops + Seq::new(
                    align_padding(offset_of(old(self)@), alignment as nat),
                    |i: int| 0x90u8,
                ),
                ..old(self)@
            }),
            offset_of(final(self)@) % alignment as nat == 0,
    {
        let off = (self.ops.len() + self.asmoffset) % alignment;
        let ghost pad = align_padding(offset_of(old(self)@), alignment as nat);
        if off != 0 {
            let count = alignment - off;
            let mut k: usize = 0;
            while k < count
                invariant
                    k <= count,
                    old(self).wf(),
                    count as nat == pad,
                    pad < alignment,
                    offset_of(old(self)@) + alignment <= usize::MAX,
                    self.execbuffer == old(self).execbuffer,
                    self.map_len == old(self).map_len,
                    self.image == old(self).image,
                    self.asmoffset == old(self).asmoffset,
                    self.tables == old(self).tables,
                    self.ops@ == old(self).ops@ + Seq::new(k as nat, |i: int| 0x90u8),
                decreases count - k,
            {
                self.ops.push(0x90);
                proof {
                    assert(self.ops@ =~= old(self).ops@ + Seq::new((k + 1) as nat, |i: int| 0x90u8));
                }
                k = k + 1;
            }
        } else {
            proof {
                assert(self.ops@ =~= old(self).ops@ + Seq::new(0, |i: int| 0x90u8));
            }
        }
        proof {
            assert(final(self)@ =~= (AsmModel {
                ops: old(self)@.ops + Seq::new(pad, |i: int| 0x90u8),
                ..old(self)@
            }));
            let a = alignment as int;
            let o = offset_of(old(self)@) as int;
            vstd::arithmetic::div_mod::lemma_fundamental_div_mod(o, a);
            if o % a != 0 {
                assert((o + (a - o % a)) == a * (o / a) + a);
                assert((a * (o / a) + a) % a == (a * ((o / a) + 1) + 0) % a) by (nonlinear_arith);
                vstd::arithmetic::div_mod::lemma_mod_multiples_vanish((o / a) + 1, 0, a);
                vstd::arithmetic::div_mod::lemma_mod_bound(0, a);
            }
        }
    }

    /// Allocate a fresh, undefined dynamic label.
    pub fn new_dynamic_label(&mut self) -> (r: DynamicLabel)
        requires
            old(self).wf(),
        ensures
            final(self).wf(),
            r.0 as nat == old(self)@.dynamic_defs.len(),
            final(self)@ == (AsmModel {
                dynamic_defs: old(self)@.dynamic_defs.push(None),
                ..old(self)@
            }),
    {
        let id = self.tables.dynamic_defs.len();
        self.tables.dynamic_defs.push(None);
        DynamicLabel(id)
    }

    /// Record the current offset as the definition of the global label
    /// `name`; a second definition of the same name is refused.
    pub fn global_label(&mut self, name: &'static str) -> (r: Result<(), AsmError>)
        requires
            old(self).wf(),
        ensures
            final(self).wf(),
            match r {
                Ok(()) => lookup(old(self)@.global_defs, name@) is None && final(self)@
                    == (AsmModel {
                    global_defs: old(self)@.global_defs.push(
                        (name@, offset_of(old(self)@) as usize),
                    ),
                    ..old(self)@
                }),
                Err(e) => e == AsmError::DuplicateLabel && lookup(old(self)@.global_defs, name@)
                    is Some && *final(self) == *old(self),
            },
    {
        if lookup_def(&self.tables.global_defs, name).is_some() {
            return Err(AsmError::DuplicateLabel);
        }
        let off = self.ops.len() + self.asmoffset;
        self.tables.global_defs.push((name, off));
        proof {
            assert(defs_view(self.tables.global_defs@) =~= defs_view(
                old(self).tables.global_defs@,
            ).push((name@, off)));
            assert(final(self)@ =~= (AsmModel {
                global_defs: old(self)@.global_defs.push((name@, off)),
                ..old(self)@
            }));
        }
        Ok(())
    }

    /// Record a pending global relocation at the current offset: the field
    /// is the last `size` staged bytes.
    pub fn global_reloc(&mut self, name: &'static str, size: u8)
        requires
            old(self).wf(),
            valid_size(size),
            size as nat <= old(self)@.ops.len(),
        ensures
            final(self).wf(),
            final(self)@ == (AsmModel {
                global_relocs: old(self)@.global_relocs.push(
                    (
                        PatchLoc { end: offset_of(old(self)@) as usize, size },
                        name@,
                    ),
                ),
                ..old(self)@
            }),
    {
        let end = self.ops.len() + self.asmoffset;
        self.tables.global_relocs.push((PatchLoc { end, size }, name));
        proof {
            assert(grelocs_view(self.tables.global_relocs@) =~= grelocs_view(
                old(self).tables.global_relocs@,
            ).push((PatchLoc { end, size }, name@)));
            assert(final(self)@ =~= (AsmModel {
                global_relocs: old(self)@.global_relocs.push((PatchLoc { end, size }, name@)),
                ..old(self)@
            }));
        }
    }

    /// Bind the dynamic label `id` to the current offset; a second binding
    /// of the same label is refused.
    pub fn dynamic_label(&mut self, id: DynamicLabel) -> (r: Result<(), AsmError>)
        requires
            old(self).wf(),
            id.0 < old(self)@.dynamic_defs.len(),
        ensures
            final(self).wf(),
            match r {
                Ok(()) => old(self)@.dynamic_defs[id.0 as int] is None && final(self)@
                    == (AsmModel {
                    dynamic_defs: old(self)@.dynamic_defs.update(
                        id.0 as int,
                        Some(offset_of(old(self)@) as usize),
                    ),
                    ..old(self)@
                }),
                Err(e) => e == AsmError::DuplicateLabel && old(self)@.dynamic_defs[id.0 as int]
                    is Some && *final(self) == *old(self),
            },
    {
        if self.tables.dynamic_defs[id.0].is_some() {
            return Err(AsmError::DuplicateLabel);
        }
        let off = self.ops.len() + self.asmoffset;
        self.tables.dynamic_defs[id.0] = Some(off);
        Ok(())
    }

    /// Record a pending dynamic relocation at the current offset: the
    /// field is the last `size` staged bytes.
    pub fn dynamic_reloc(&mut self, id: DynamicLabel, size: u8)
        requires
            old(self).wf(),
            valid_size(size),
            size as nat <= old(self)@.ops.len(),
        ensures
            final(self).wf(),
            final(self)@ == (AsmModel {
                dynamic_relocs: old(self)@.dynamic_relocs.push(
                    (
                        PatchLoc { end: offset_of(old(self)@) as usize, size },
                        id.0,
                    ),
                ),
                ..old(self)@
            }),
    {
        let end = self.ops.len() + self.asmoffset;
        self.tables.dynamic_relocs.push((PatchLoc { end, size }, id.0));
    }

    /// Define the local label `name` at the current offset: every pending
    /// forward reference to it is patched to here and dropped, and the
    /// definition overrides any earlier one.
    pub fn local_label(&mut self, name: &'static str)
        requires
            old(self).wf(),
        ensures
            final(self).wf(),
            final(self)@ == local_label_model(old(self)@, name@),
    {
        let ghost m0 = self@;
        let target = self.ops.len() + self.asmoffset;
        let matched = drain_matching(&mut self.tables.local_relocs, name);
        let ghost locs = matched@;
        proof {
            lemma_pending_for_locs(m0.local_relocs, name@, m0.start, m0.ops.len());
            lemma_without_name_locs(m0.local_relocs, name@, m0.start, m0.ops.len());
        }
        let n = matched.len();
        let mut i: usize = 0;
        while i < n
            invariant
                i <= n,
                n == locs.len(),
                m0 == old(self)@,
                locs == pending_for(m0.local_relocs, name@),
                target as nat == offset_of(m0),
                wf_model(m0),
                forall|j: int| 0 <= j < locs.len() ==> loc_in(#[trigger] locs[j], m0.start, m0.ops.len()),
                matched@ == locs,
                self.execbuffer == old(self).execbuffer,
                self.map_len == old(self).map_len,
                self.image == old(self).image,
                self.asmoffset == old(self).asmoffset,
                self.tables.global_defs == old(self).tables.global_defs,
                self.tables.global_relocs == old(self).tables.global_relocs,
                self.tables.dynamic_defs == old(self).tables.dynamic_defs,
                self.tables.dynamic_relocs == old(self).tables.dynamic_relocs,
                self.tables.local_defs == old(self).tables.local_defs,
                lrelocs_view(self.tables.local_relocs@) == without_name(m0.local_relocs, name@),
                self.ops@.len() == m0.ops.len(),
                self.ops@ == patch_list(m0.ops, m0.start, locs.take(i as int), target as nat),
            decreases n - i,
        {
            let loc = matched[i];
            proof {
                assert(locs.take(i + 1).drop_last() =~= locs.take(i as int));
                assert(locs.take(i + 1).last() == locs[i as int]);
                assert(loc_in(locs[i as int], m0.start, m0.ops.len()));
                assert(forall|j: int|
                    0 <= j < locs.take(i as int).len() ==> loc_in(
                        #[trigger] locs.take(i as int)[j],
                        m0.start,
                        m0.ops.len(),
                    ));
                lemma_patch_list_len(m0.ops, m0.start, locs.take(i as int), target as nat);
            }
            patch_vec(&mut self.ops, self.asmoffset, loc, target);
            i = i + 1;
        }
        proof {
            assert(locs.take(n as int) =~= locs);
        }
        self.tables.local_defs.push((name, target));
        proof {
            assert(defs_view(self.tables.local_defs@) =~= m0.local_defs.push(
                (name@, target),
            ));
            assert(final(self)@ =~= local_label_model(m0, name@));
            lemma_patch_list_len(m0.ops, m0.start, locs, target as nat);
        }
    }

    /// Queue a forward reference to the local label `name` at the current
    /// offset: the field is the last `size` staged bytes, to be patched
    /// when the label is next defined.
    pub fn forward_reloc(&mut self, name: &'static str, size: u8)
        requires
            old(self).wf(),
            valid_size(size),
            size as nat <= old(self)@.ops.len(),
        ensures
            final(self).wf(),
            final(self)@ == (AsmModel {
                local_relocs: old(self)@.local_relocs.push(
                    (
                        name@,
                        PatchLoc { end: offset_of(old(self)@) as usize, size },
                    ),
                ),
                ..old(self)@
            }),
    {
        let end = self.ops.len() + self.asmoffset;
        self.tables.local_relocs.push((name, PatchLoc { end, size }));
        proof {
            assert(lrelocs_view(self.tables.local_relocs@) =~= lrelocs_view(
                old(self).tables.local_relocs@,
            ).push((name@, PatchLoc { end, size })));
            assert(final(self)@ =~= (AsmModel {
                local_relocs: old(self)@.local_relocs.push((name@, PatchLoc { end, size })),
                ..old(self)@
            }));
        }
    }

    /// Patch the last `size` staged bytes with the displacement to the
    /// most recent definition of the local label `name`.
    pub fn backward_reloc(&mut self, name: &'static str, size: u8) -> (r: Result<(), AsmError>)
        requires
            old(self).wf(),
            valid_size(size),
            size as nat <= old(self)@.ops.len(),
        ensures
            final(self).wf(),
            match r {
                Ok(()) => lookup(old(self)@.local_defs, name@) is Some && final(self)@
                    == (AsmModel {
                    ops: patch_one(
                        old(self)@.ops,
                        old(self)@.start,
                        PatchLoc { end: offset_of(old(self)@) as usize, size },
                        lookup(old(self)@.local_defs, name@)->Some_0 as nat,
                    ),
                    ..old(self)@
                }),
                Err(e) => e == AsmError::UnknownLabel && lookup(old(self)@.local_defs, name@)
                    is None && *final(self) == *old(self),
            },
    {
        match lookup_def(&self.tables.local_defs, name) {
            Some(target) => {
                let end = self.ops.len() + self.asmoffset;
                let loc = PatchLoc { end, size };
                patch_vec(&mut self.ops, self.asmoffset, loc, target);
                proof {
                    assert(final(self)@ =~= (AsmModel {
                        ops: patch_one(
                            old(self)@.ops,
                            old(self)@.start,
                            loc,
                            target as nat,
                        ),
                        ..old(self)@
                    }));
                    lemma_patch_one(old(self)@.ops, old(self)@.start, loc, target as nat);
                }
                Ok(())
            },
            None => Err(AsmError::UnknownLabel),
        }
    }

    /// Publish the staged bytes: resolve every pending global and dynamic
    /// relocation, move the bytes into the executable mapping under the
    /// exclusive lock (growing the mapping and replacing the shared handle
    /// when they do not fit), and advance the staging window. The
    /// references are validated before anything is patched, so a failed
    /// commit leaves the assembler exactly as it was.
    pub fn commit(&mut self) -> (r: Result<(), AsmError>)
        requires
            old(self).wf(),
        ensures
            final(self).wf(),
            match r {
                Ok(()) => commit_ready(old(self)@) && final(self)@ == commit_model(old(self)@)
                    && live_len(final(self)@) == if old(self)@.ops.len() == 0 {
                    live_len(old(self)@)
                } else {
                    offset_of(old(self)@)
                },
                Err(e) => e == AsmError::UnknownLabel && !commit_ready(old(self)@) && *final(self)
                    == *old(self),
            },
    {
        let ghost m0 = self@;
        if self.ops.len() == 0 {
            return Ok(());
        }
        let glen = self.tables.global_relocs.len();
        let mut i: usize = 0;
        while i < glen
            invariant
                i <= glen,
                m0 == old(self)@,
                *self == *old(self),
                old(self).wf(),
                m0.ops.len() > 0,
                glen == self.tables.global_relocs@.len(),
                forall|j: int|
                    0 <= j < i ==> lookup(m0.global_defs, #[trigger] m0.global_relocs[j].1)
                        is Some,
            decreases glen - i,
        {
            let e = self.tables.global_relocs[i];
            proof {
                assert(m0.global_relocs[i as int] == (e.0, e.1@));
            }
            if lookup_def(&self.tables.global_defs, e.1).is_none() {
                proof {
                    assert(lookup(m0.global_defs, m0.global_relocs[i as int].1) is None);
                    assert(!globals_resolved(m0.global_relocs, m0.global_defs));
                }
                return Err(AsmError::UnknownLabel);
            }
            i = i + 1;
        }
        let dlen = self.tables.dynamic_relocs.len();
        let mut i: usize = 0;
        while i < dlen
            invariant
                i <= dlen,
                m0 == old(self)@,
                *self == *old(self),
                old(self).wf(),
                m0.ops.len() > 0,
                dlen == self.tables.dynamic_relocs@.len(),
                forall|j: int|
                    0 <= j < i ==> (#[trigger] m0.dynamic_relocs[j].1 < m0.dynamic_defs.len()
                        && m0.dynamic_defs[m0.dynamic_relocs[j].1 as int] is Some),
            decreases dlen - i,
        {
            let e = self.tables.dynamic_relocs[i];
            if e.1 >= self.tables.dynamic_defs.len() {
                proof {
                    assert(!dynamics_resolved(m0.dynamic_relocs, m0.dynamic_defs));
                }
                return Err(AsmError::UnknownLabel);
            }
            if self.tables.dynamic_defs[e.1].is_none() {
                proof {
                    assert(!dynamics_resolved(m0.dynamic_relocs, m0.dynamic_defs));
                }
                return Err(AsmError::UnknownLabel);
            }
            i = i + 1;
        }
        if self.tables.local_relocs.len() > 0 {
            return Err(AsmError::UnknownLabel);
        }
        proof {
            assert(globals_resolved(m0.global_relocs, m0.global_defs));
            assert(dynamics_resolved(m0.dynamic_relocs, m0.dynamic_defs));
            assert(m0.local_relocs.len() == 0);
        }
        let base = self.asmoffset;
        let mut i: usize = 0;
        while i < glen
            invariant
                i <= glen,
                m0 == old(self)@,
                old(self).wf(),
                base == old(self).asmoffset,
                m0.ops.len() > 0,
                glen == self.tables.global_relocs@.len(),
                globals_resolved(m0.global_relocs, m0.global_defs),
                dynamics_resolved(m0.dynamic_relocs, m0.dynamic_defs),
                m0.local_relocs.len() == 0,
                self.execbuffer == old(self).execbuffer,
                self.map_len == old(self).map_len,
                self.image == old(self).image,
                self.asmoffset == old(self).asmoffset,
                self.tables.global_defs == old(self).tables.global_defs,
                self.tables.global_relocs == old(self).tables.global_relocs,
                self.tables.dynamic_defs == old(self).tables.dynamic_defs,
                self.tables.dynamic_relocs == old(self).tables.dynamic_relocs,
                self.tables.local_defs == old(self).tables.local_defs,
                self.tables.local_relocs == old(self).tables.local_relocs,
                self.ops@.len() == m0.ops.len(),
                self.ops@ == patch_globals(
                    m0.ops,
                    m0.start,
                    m0.global_relocs.take(i as int),
                    m0.global_defs,
                ),
            decreases glen - i,
        {
            let e = self.tables.global_relocs[i];
            proof {
                assert(m0.global_relocs[i as int] == (e.0, e.1@));
                assert(m0.global_relocs.take(i + 1).drop_last() =~= m0.global_relocs.take(
                    i as int,
                ));
                assert(m0.global_relocs.take(i + 1).last() == m0.global_relocs[i as int]);
                assert(forall|j: int|
                    0 <= j < m0.global_relocs.take(i as int).len() ==> loc_in(
                        #[trigger] m0.global_relocs.take(i as int)[j].0,
                        m0.start,
                        m0.ops.len(),
                    ));
                lemma_patch_globals_len(
                    m0.ops,
                    m0.start,
                    m0.global_relocs.take(i as int),
                    m0.global_defs,
                );
                assert(loc_in(m0.global_relocs[i as int].0, m0.start, m0.ops.len()));
                assert(loc_in(e.0, m0.start, m0.ops.len()));
                assert(lookup(m0.global_defs, m0.global_relocs[i as int].1) is Some);
            }
            match lookup_def(&self.tables.global_defs, e.1) {
                Some(t) => {
                    patch_vec(&mut self.ops, base, e.0, t);
                },
                None => {
                    // the validation pass has already resolved this name
                    proof {
                        assert(false);
                    }
                    return Err(AsmError::UnknownLabel);
                },
            }
            i = i + 1;
        }
        proof {
            assert(m0.global_relocs.take(glen as int) =~= m0.global_relocs);
        }
        let ghost after_globals = patch_globals(m0.ops, m0.start, m0.global_relocs, m0.global_defs);
        let mut i: usize = 0;
        while i < dlen
            invariant
                i <= dlen,
                m0 == old(self)@,
                old(self).wf(),
                base == old(self).asmoffset,
                m0.ops.len() > 0,
                dlen == self.tables.dynamic_relocs@.len(),
                after_globals == patch_globals(m0.ops, m0.start, m0.global_relocs, m0.global_defs),
                globals_resolved(m0.global_relocs, m0.global_defs),
                dynamics_resolved(m0.dynamic_relocs, m0.dynamic_defs),
                m0.local_relocs.len() == 0,
                self.execbuffer == old(self).execbuffer,
                self.map_len == old(self).map_len,
                self.image == old(self).image,
                self.asmoffset == old(self).asmoffset,
                self.tables.global_defs == old(self).tables.global_defs,
                self.tables.global_relocs == old(self).tables.global_relocs,
                self.tables.dynamic_defs == old(self).tables.dynamic_defs,
                self.tables.dynamic_relocs == old(self).tables.dynamic_relocs,
                self.tables.local_defs == old(self).tables.local_defs,
                self.tables.local_relocs == old(self).tables.local_relocs,
                self.ops@.len() == m0.ops.len(),
                self.ops@ == patch_dynamics(
                    after_globals,
                    m0.start,
                    m0.dynamic_relocs.take(i as int),
                    m0.dynamic_defs,
                ),
            decreases dlen - i,
        {
            let e = self.tables.dynamic_relocs[i];
            proof {
                assert(m0.dynamic_relocs[i as int] == e);
                assert(m0.dynamic_relocs.take(i + 1).drop_last() =~= m0.dynamic_relocs.take(
                    i as int,
                ));
                assert(m0.dynamic_relocs.take(i + 1).last() == m0.dynamic_relocs[i as int]);
                lemma_patch_globals_len(m0.ops, m0.start, m0.global_relocs, m0.global_defs);
                assert forall|j: int|
                    0 <= j < m0.dynamic_relocs.take(i as int).len() implies loc_in(
                    #[trigger] m0.dynamic_relocs.take(i as int)[j].0,
                    m0.start,
                    after_globals.len(),
                ) by {
                    assert(m0.dynamic_relocs.take(i as int)[j] == m0.dynamic_relocs[j]);
                    assert(loc_in(m0.dynamic_relocs[j].0, m0.start, m0.ops.len()));
                }
                lemma_patch_dynamics_len(
                    after_globals,
                    m0.start,
                    m0.dynamic_relocs.take(i as int),
                    m0.dynamic_defs,
                );
                assert(loc_in(e.0, m0.start, m0.ops.len()));
            }
            match self.tables.dynamic_defs[e.1] {
                Some(t) => {
                    patch_vec(&mut self.ops, base, e.0, t);
                },
                None => {
                    // the validation pass has already resolved this name
                    proof {
                        assert(false);
                    }
                    return Err(AsmError::UnknownLabel);
                },
            }
            i = i + 1;
        }
        proof {
            assert(m0.dynamic_relocs.take(dlen as int) =~= m0.dynamic_relocs);
            assert(self.ops@ == resolved_ops(m0));
        }
        self.tables.global_relocs = Vec::new();
        self.tables.dynamic_relocs = Vec::new();
        proof {
            assert(grelocs_view(self.tables.global_relocs@) =~= Seq::<
                (PatchLoc, Seq<char>),
            >::empty());
        }
        let buf_end = self.asmoffset + self.ops.len();
        if buf_end <= self.map_len {
            crate::tables::write_into(&mut self.image, base, &self.ops);
            proof {
                assert(self.image@ == splice(m0.published, base as int, self.ops@));
            }
            let (stale, wh) = self.execbuffer.acquire_write();
            let _ = stale;
            wh.release_write(
                ExecutableBuffer::from_vec(crate::tables::vec_copy(&self.image), buf_end),
            );
            self.ops.clear();
            self.asmoffset = buf_end;
            proof {
                assert(self@.published.len() == m0.published.len());
                assert(self@ =~= commit_model(m0));
            }
            Ok(())
        } else {
            let newcap = if self.map_len <= usize::MAX / 2 && self.map_len * 2 > buf_end {
                self.map_len * 2
            } else {
                buf_end
            };
            proof {
                assert(newcap as nat == grown_cap(buf_end as nat, m0.published.len()));
            }
            let mut grown: Vec<u8> = Vec::new();
            let mut i: usize = 0;
            while i < base
                invariant
                    i <= base,
                    base as nat <= self.image@.len(),
                    self.image@ == m0.published,
                    grown@ == m0.published.take(i as int),
                decreases base - i,
            {
                let b = self.image[i];
                grown.push(b);
                proof {
                    assert(grown@ =~= m0.published.take(i + 1));
                }
                i = i + 1;
            }
            let mut j: usize = 0;
            while j < self.ops.len()
                invariant
                    j <= self.ops@.len(),
                    self.ops@ == resolved_ops(m0),
                    base as nat == m0.start,
                    grown@ == m0.published.take(base as int) + self.ops@.take(j as int),
                decreases self.ops@.len() - j,
            {
                let b = self.ops[j];
                grown.push(b);
                proof {
                    assert(grown@ =~= m0.published.take(base as int) + self.ops@.take(j + 1));
                }
                j = j + 1;
            }
            proof {
                assert(self.ops@.take(self.ops@.len() as int) =~= self.ops@);
                assert(grown@ =~= m0.published.take(base as int) + resolved_ops(m0) + Seq::new(
                    0,
                    |k: int| 0u8,
                ));
            }
            while grown.len() < newcap
                invariant
                    grown@.len() >= buf_end,
                    grown@.len() <= newcap,
                    buf_end as nat == m0.start + resolved_ops(m0).len(),
                    grown@ == m0.published.take(base as int) + resolved_ops(m0) + Seq::new(
                        (grown@.len() - buf_end) as nat,
                        |k: int| 0u8,
                    ),
                decreases newcap - grown@.len(),
            {
                grown.push(0u8);
                proof {
                    assert(grown@ =~= m0.published.take(base as int) + resolved_ops(m0) + Seq::new(
                        (grown@.len() - buf_end) as nat,
                        |k: int| 0u8,
                    ));
                }
            }
            let (old_buf, wh) = self.execbuffer.acquire_write();
            // surviving readers keep the old mapping alive through their
            // own handles until they drop them
            wh.release_write(old_buf);
            self.execbuffer = Arc::new(
                RwLock::<ExecutableBuffer, CapPred>::new(
                    ExecutableBuffer::from_vec(crate::tables::vec_copy(&grown), buf_end),
                    Ghost(CapPred { cap: newcap as nat }),
                ),
            );
            self.map_len = newcap;
            self.image = grown;
            self.ops.clear();
            self.asmoffset = buf_end;
            proof {
                assert(self@.published.len() == newcap as nat);
                assert(self@ =~= commit_model(m0));
            }
            Ok(())
        }
    }

    /// Hand out a read handle over the published mapping. The handle
    /// shares the mapping: reads through it block the commit protocol's
    /// exclusive writes, and the mapping stays alive while the handle
    /// exists.
    pub fn reader(&self) -> (r: Executor)
        requires
            self.wf(),
        ensures
            r.cap_spec() == self@.published.len(),
    {
        Executor { execbuffer: arc_clone(&self.execbuffer) }
    }

    /// Commit, then take sole ownership of the executable mapping: the
    /// returned buffer holds exactly the committed program image, with the
    /// committed code as its live length. If any `Executor` handle is
    /// still alive the assembler comes back unchanged but committed — the
    /// still-borrowed case of the protocol.
    pub fn finalize(self) -> (r: Result<ExecutableBuffer, Assembler>)
        requires
            self.wf(),
            commit_ready(self@),
        ensures
            match r {
                Ok(buf) => buf.wf() && buf.bytes() == commit_model(self@).published
                    && buf.spec_len() == live_len(commit_model(self@)),
                Err(a) => a.wf() && a@ == commit_model(self@),
            },
    {
        let mut s = self;
        let ghost m0 = s@;
        let c = s.commit();
        match c {
            Ok(()) => {
            },
            Err(_) => {
                // commit cannot fail: every reference resolves by the
                // `commit_ready` precondition
                proof {
                    assert(false);
                }
            },
        }
        let Assembler { execbuffer, map_len, image, asmoffset, ops, tables } = s;
        match arc_try_unwrap(execbuffer) {
            Ok(lock) => {
                // the lock's copy is released; the mapping handed back is
                // built from the authoritative image it mirrors
                let stale = lock.into_inner();
                let _ = stale;
                Ok(ExecutableBuffer::from_vec(image, asmoffset))
            },
            Err(arc) => {
                Err(Assembler { execbuffer: arc, map_len, image, asmoffset, ops, tables })
            },
        }
    }
}

impl Executor {
    /// The capacity of the mapping this handle reads.
    pub closed spec fn cap_spec(&self) -> nat {
        (*self.execbuffer).pred().cap
    }

    /// A copy of the live code bytes at the moment of the read. What the
    /// bytes hold is governed by the assembler's commit protocol; the
    /// shared lock itself only bounds their extent.
    pub fn code(&self) -> (r: Vec<u8>)
        ensures
            r@.len() <= self.cap_spec(),
    {
        let handle = self.execbuffer.acquire_read();
        let out = handle.borrow().code();
        handle.release_read();
        out
    }

    /// The live code length at the moment of the read.
    pub fn len(&self) -> (r: usize)
        ensures
            r as nat <= self.cap_spec(),
    {
        let handle = self.execbuffer.acquire_read();
        let r = handle.borrow().len();
        handle.release_read();
        r
    }

    /// One byte of the live code, `None` past its end at the moment of
    /// the read.
    pub fn byte_at(&self, i: usize) -> (r: Option<u8>)
        ensures
            r is Some ==> (i as nat) < self.cap_spec(),
    {
        let handle = self.execbuffer.acquire_read();
        let buf = handle.borrow();
        let r = if i < buf.len() { Some(buf.byte_at(i)) } else { None };
        handle.release_read();
        r
    }
}

// ---------------------------------------------------------------
// In-place modification of emitted code.
//
// `AssemblyModifier` is handed out by `Assembler::alter`: it owns the
// mapping in its writable state together with the label tables, writes
// bytes at a movable cursor, and supports the full label API; the pending
// global and dynamic relocations it records are resolved against the
// writable mapping when `alter` finishes. `UncommittedModifier` is handed
// out by `Assembler::alter_uncommitted`: it overwrites staged bytes in
// place and exposes no label operations.
//
// A modifier is passed to the caller's closure by value and taken back
// from its return value. Nothing ties the returned value to the one
// passed in, so `alter` re-checks at run time what the modifier's methods
// in fact preserve: the staging length, the mapping capacity, and the
// live length.


/// Patch a field only when it lies inside the byte string; a field that
/// does not is left alone.
pub open spec fn guarded_patch(s: Seq<u8>, loc: PatchLoc, target: nat) -> Seq<u8> {
    if valid_size(loc.size) && loc.size <= loc.end && loc.end <= s.len() {
        patch_one(s, 0, loc, target)
    } else {
        s
    }
}

/// Apply guarded patches in order, all against one target.
pub open spec fn gpatch_list(s: Seq<u8>, locs: Seq<PatchLoc>, target: nat) -> Seq<u8>
    decreases locs.len(),
{
    if locs.len() == 0 {
        s
    } else {
        guarded_patch(gpatch_list(s, locs.drop_last(), target), locs.last(), target)
    }
}

/// Resolve global relocations against the mapping, in record order.
pub open spec fn gpatch_globals(
    s: Seq<u8>,
    relocs: Seq<(PatchLoc, Seq<char>)>,
    defs: Seq<(Seq<char>, usize)>,
) -> Seq<u8>
    decreases relocs.len(),
{
    if relocs.len() == 0 {
        s
    } else {
        let prev = gpatch_globals(s, relocs.drop_last(), defs);
        match lookup(defs, relocs.last().1) {
            Some(t) => guarded_patch(prev, relocs.last().0, t as nat),
            None => prev,
        }
    }
}

/// Resolve dynamic relocations against the mapping, in record order.
pub open spec fn gpatch_dynamics(
    s: Seq<u8>,
    relocs: Seq<(PatchLoc, usize)>,
    defs: Seq<Option<usize>>,
) -> Seq<u8>
    decreases relocs.len(),
{
    if relocs.len() == 0 {
        s
    } else {
        let prev = gpatch_dynamics(s, relocs.drop_last(), defs);
        if relocs.last().1 < defs.len() && defs[relocs.last().1 as int] is Some {
            guarded_patch(prev, relocs.last().0, defs[relocs.last().1 as int]->Some_0 as nat)
        } else {
            prev
        }
    }
}

/// The modifier handed to an alteration closure: cursor at offset 0 over
/// a writable copy of the committed image, carrying the label state of the
/// committed assembler, with nothing pending.
pub open spec fn modifier_start(m1: AssemblyModifier, mc: AsmModel) -> bool {
    &&& m1.cursor_spec() == 0
    &&& m1.bytes() == mc.published
    &&& m1.live_len() == mc.start
    &&& m1.gdefs() == mc.global_defs
    &&& m1.gre().len() == 0
    &&& m1.ddefs() == mc.dynamic_defs
    &&& m1.dre().len() == 0
    &&& m1.ldefs() == mc.local_defs
    &&& m1.lre().len() == 0
}

/// Every reference the modifier holds resolves, and no forward local
/// reference is left open: exactly when an alteration succeeds.
pub open spec fn alter_resolvable(m: AssemblyModifier) -> bool {
    &&& globals_resolved(m.gre(), m.gdefs())
    &&& dynamics_resolved(m.dre(), m.ddefs())
    &&& m.lre().len() == 0
}

/// What every alteration leaves behind, succeed or fail: an empty staging
/// buffer, no pending relocations, and the label definitions the closure's
/// modifier ended with.
pub open spec fn alter_aftermath(m2: AssemblyModifier, fin: AsmModel) -> bool {
    &&& fin.ops.len() == 0
    &&& fin.global_relocs.len() == 0
    &&& fin.dynamic_relocs.len() == 0
    &&& fin.local_relocs.len() == 0
    &&& fin.global_defs == m2.gdefs()
    &&& fin.dynamic_defs == m2.ddefs()
    &&& fin.local_defs == m2.ldefs()
}

/// A cursor over the writable mapping during `alter`, carrying the label
/// tables.
pub struct AssemblyModifier {
    pub(crate) buffer: MutableBuffer,
    pub(crate) tables: Tables,
    pub(crate) cursor: usize,
}

/// A cursor over the staged, not yet committed bytes.
pub struct UncommittedModifier {
    pub(crate) ops: Vec<u8>,
    pub(crate) base: usize,
    pub(crate) cursor: usize,
}

/// Write the field of `loc` into the writable mapping when it lies inside
/// it.
fn patch_buffer(buf: &mut MutableBuffer, loc: PatchLoc, target: usize)
    ensures
        final(buf).bytes() == guarded_patch(old(buf).bytes(), loc, target as nat),
        final(buf).bytes().len() == old(buf).bytes().len(),
        final(buf).spec_len() == old(buf).spec_len(),
{
    let size_ok = loc.size == 1 || loc.size == 2 || loc.size == 4 || loc.size == 8;
    if size_ok && loc.end >= loc.size as usize && loc.end <= buf.capacity() {
        let field = displacement_field(target, loc.end, loc.size);
        buf.write_bytes(loc.end - loc.size as usize, &field);
        proof {
            assert(final(buf).bytes() =~= guarded_patch(old(buf).bytes(), loc, target as nat));
        }
    }
}

impl AssemblyModifier {
    /// The whole backing store of the writable mapping.
    pub closed spec fn bytes(&self) -> Seq<u8> {
        self.buffer.bytes()
    }

    /// The number of live code bytes of the mapping.
    pub closed spec fn live_len(&self) -> nat {
        self.buffer.spec_len()
    }

    /// The modification cursor.
    pub closed spec fn cursor_spec(&self) -> nat {
        self.cursor as nat
    }

    /// The label tables as one value.
    pub closed spec fn tabs(&self) -> Tables {
        self.tables
    }

    /// The global definitions.
    pub closed spec fn gdefs(&self) -> Seq<(Seq<char>, usize)> {
        defs_view(self.tables.global_defs@)
    }

    /// The pending global relocations.
    pub closed spec fn gre(&self) -> Seq<(PatchLoc, Seq<char>)> {
        grelocs_view(self.tables.global_relocs@)
    }

    /// The dynamic label slots.
    pub closed spec fn ddefs(&self) -> Seq<Option<usize>> {
        self.tables.dynamic_defs@
    }

    /// The pending dynamic relocations.
    pub closed spec fn dre(&self) -> Seq<(PatchLoc, usize)> {
        self.tables.dynamic_relocs@
    }

    /// The local definitions.
    pub closed spec fn ldefs(&self) -> Seq<(Seq<char>, usize)> {
        defs_view(self.tables.local_defs@)
    }

    /// The pending forward references to local labels.
    pub closed spec fn lre(&self) -> Seq<(Seq<char>, PatchLoc)> {
        lrelocs_view(self.tables.local_relocs@)
    }

    /// The modification cursor as an absolute offset.
    pub fn offset(&self) -> (r: AssemblyOffset)
        ensures
            r.0 as nat == self.cursor_spec(),
    {
        AssemblyOffset(self.cursor)
    }

    /// Move the modification cursor.
    pub fn goto(self, offset: AssemblyOffset) -> (r: AssemblyModifier)
        ensures
            r.cursor_spec() == offset.0 as nat,
            r.bytes() == self.bytes(),
            r.live_len() == self.live_len(),
            r.gdefs() == self.gdefs(),
            r.gre() == self.gre(),
            r.ddefs() == self.ddefs(),
            r.dre() == self.dre(),
            r.ldefs() == self.ldefs(),
            r.lre() == self.lre(),
    {
        AssemblyModifier { cursor: offset.0, ..self }
    }

    /// Fail unless the cursor is at most `offset`.
    pub fn check(&self, offset: AssemblyOffset) -> (r: Result<(), AsmError>)
        ensures
            r is Ok <==> self.cursor_spec() <= offset.0 as nat,
            r is Err ==> r->Err_0 == AsmError::OffsetCheckFailed,
    {
        if self.cursor > offset.0 {
            Err(AsmError::OffsetCheckFailed)
        } else {
            Ok(())
        }
    }

    /// Fail unless the cursor is exactly `offset`.
    pub fn check_exact(&self, offset: AssemblyOffset) -> (r: Result<(), AsmError>)
        ensures
            r is Ok <==> self.cursor_spec() == offset.0 as nat,
            r is Err ==> r->Err_0 == AsmError::OffsetCheckFailed,
    {
        if self.cursor != offset.0 {
            Err(AsmError::OffsetCheckFailed)
        } else {
            Ok(())
        }
    }

    /// Overwrite one byte at the cursor and advance it.
    pub fn push(self, value: u8) -> (r: AssemblyModifier)
        requires
            self.cursor_spec() < self.bytes().len(),
        ensures
            r.bytes() == self.bytes().update(self.cursor_spec() as int, value),
            r.bytes().len() == self.bytes().len(),
            r.live_len() == self.live_len(),
            r.cursor_spec() == self.cursor_spec() + 1,
            r.tabs() == self.tabs(),
    {
        let AssemblyModifier { mut buffer, tables, cursor } = self;
        // the capacity bounds the cursor, so the increment cannot overflow
        let _cap: usize = buffer.capacity();
        buffer.write(cursor, value);
        AssemblyModifier { buffer, tables, cursor: cursor + 1 }
    }

    /// Overwrite a run of bytes starting at the cursor.
    pub fn extend(self, bytes: &[u8]) -> (r: AssemblyModifier)
        requires
            self.cursor_spec() + bytes@.len() <= self.bytes().len(),
        ensures
            r.bytes() == crate::disp::splice(self.bytes(), self.cursor_spec() as int, bytes@),
            r.bytes().len() == self.bytes().len(),
            r.live_len() == self.live_len(),
            r.cursor_spec() == self.cursor_spec() + bytes@.len(),
            r.tabs() == self.tabs(),
    {
        let AssemblyModifier { mut buffer, tables, cursor } = self;
        let mut data: Vec<u8> = Vec::new();
        let mut i: usize = 0;
        while i < bytes.len()
            invariant
                i <= bytes@.len(),
                data@ == bytes@.take(i as int),
            decreases bytes@.len() - i,
        {
            data.push(bytes[i]);
            proof {
                assert(data@ =~= bytes@.take(i + 1));
            }
            i = i + 1;
        }
        proof {
            assert(bytes@.take(bytes@.len() as int) =~= bytes@);
        }
        // the capacity bounds the cursor, so the addition cannot overflow
        let _cap: usize = buffer.capacity();
        buffer.write_bytes(cursor, &data);
        AssemblyModifier { buffer, tables, cursor: cursor + bytes.len() }
    }

    /// Pad with `0x90` bytes from the cursor until it is a multiple of
    /// `alignment`.
    pub fn align(self, alignment: usize) -> (r: AssemblyModifier)
        requires
            alignment >= 1,
            self.cursor_spec() + alignment <= self.bytes().len(),
        ensures
            r.cursor_spec() == self.cursor_spec() + align_padding(
                self.cursor_spec(),
                alignment as nat,
            ),
            r.cursor_spec() % alignment as nat == 0,
            r.bytes() == splice(
                self.bytes(),
                self.cursor_spec() as int,
                Seq::new(align_padding(self.cursor_spec(), alignment as nat), |i: int| 0x90u8),
            ),
            r.bytes().len() == self.bytes().len(),
            r.live_len() == self.live_len(),
            r.tabs() == self.tabs(),
    {
        let rem = self.cursor % alignment;
        let ghost pad = align_padding(self.cursor_spec(), alignment as nat);
        if rem == 0 {
            proof {
                assert(self.bytes() =~= splice(
                    self.bytes(),
                    self.cursor_spec() as int,
                    Seq::new(0, |i: int| 0x90u8),
                ));
            }
            return self;
        }
        let count = alignment - rem;
        let mut m = self;
        proof {
            assert(m.bytes() =~= self.bytes().take(self.cursor_spec() as int) + Seq::new(
                0,
                |i: int| 0x90u8,
            ) + self.bytes().skip(self.cursor_spec() as int));
        }
        let mut k: usize = 0;
        while k < count
            invariant
                k <= count,
                count as nat + self.cursor_spec() <= m.bytes().len(),
                m.bytes().len() == self.bytes().len(),
                m.bytes() == self.bytes().take(self.cursor_spec() as int) + Seq::new(
                    k as nat,
                    |i: int| 0x90u8,
                ) + self.bytes().skip(self.cursor_spec() + k),
                m.live_len() == self.live_len(),
                m.tables == self.tables,
                m.cursor_spec() == self.cursor_spec() + k as nat,
            decreases count - k,
        {
            proof {
                assert(m.bytes().update(self.cursor_spec() + k, 0x90u8) =~= self.bytes().take(
                    self.cursor_spec() as int,
                ) + Seq::new((k + 1) as nat, |i: int| 0x90u8) + self.bytes().skip(
                    self.cursor_spec() + k + 1,
                ));
            }
            m = m.push(0x90);
            k = k + 1;
        }
        proof {
            assert(count as nat == pad);
            assert(m.bytes() =~= splice(
                self.bytes(),
                self.cursor_spec() as int,
                Seq::new(pad, |i: int| 0x90u8),
            ));
            let a = alignment as int;
            let c = self.cursor_spec() as int;
            vstd::arithmetic::div_mod::lemma_fundamental_div_mod(c, a);
            assert(c + (a - c % a) == a * (c / a) + a);
            assert((a * (c / a) + a) % a == (a * ((c / a) + 1) + 0) % a) by (nonlinear_arith);
            vstd::arithmetic::div_mod::lemma_mod_multiples_vanish((c / a) + 1, 0, a);
            vstd::arithmetic::div_mod::lemma_mod_bound(0, a);
        }
        m
    }

    /// Record the cursor as the definition of the global label `name`.
    pub fn global_label(self, name: &'static str) -> (r: Result<AssemblyModifier, AsmError>)
        ensures
            match r {
                Ok(m) => lookup(self.gdefs(), name@) is None && m.gdefs() == self.gdefs().push(
                    (name@, self.cursor_spec() as usize),
                ) && m.bytes() == self.bytes() && m.live_len() == self.live_len() && m.gre()
                    == self.gre() && m.ddefs() == self.ddefs() && m.dre() == self.dre() && m.ldefs()
                    == self.ldefs() && m.lre() == self.lre() && m.cursor_spec()
                    == self.cursor_spec(),
                Err(e) => e == AsmError::DuplicateLabel && lookup(self.gdefs(), name@) is Some,
            },
    {
        if lookup_def(&self.tables.global_defs, name).is_some() {
            return Err(AsmError::DuplicateLabel);
        }
        let AssemblyModifier { buffer, mut tables, cursor } = self;
        tables.global_defs.push((name, cursor));
        proof {
            assert(defs_view(tables.global_defs@) =~= self.gdefs().push((name@, cursor)));
        }
        Ok(AssemblyModifier { buffer, tables, cursor })
    }

    /// Record a pending global relocation whose field is the last `size`
    /// bytes before the cursor.
    pub fn global_reloc(self, name: &'static str, size: u8) -> (r: AssemblyModifier)
        requires
            valid_size(size),
        ensures
            r.gre() == self.gre().push((PatchLoc { end: self.cursor_spec() as usize, size }, name@)),
            r.bytes() == self.bytes(),
            r.live_len() == self.live_len(),
            r.gdefs() == self.gdefs(),
            r.ddefs() == self.ddefs(),
            r.dre() == self.dre(),
            r.ldefs() == self.ldefs(),
            r.lre() == self.lre(),
            r.cursor_spec() == self.cursor_spec(),
    {
        let AssemblyModifier { buffer, mut tables, cursor } = self;
        tables.global_relocs.push((PatchLoc { end: cursor, size }, name));
        proof {
            assert(grelocs_view(tables.global_relocs@) =~= self.gre().push(
                (PatchLoc { end: cursor, size }, name@),
            ));
        }
        AssemblyModifier { buffer, tables, cursor }
    }

    /// Bind the dynamic label `id` to the cursor.
    pub fn dynamic_label(self, id: DynamicLabel) -> (r: Result<AssemblyModifier, AsmError>)
        requires
            id.0 < self.ddefs().len(),
        ensures
            match r {
                Ok(m) => self.ddefs()[id.0 as int] is None && m.ddefs() == self.ddefs().update(
                    id.0 as int,
                    Some(self.cursor_spec() as usize),
                ) && m.bytes() == self.bytes() && m.live_len() == self.live_len() && m.gdefs()
                    == self.gdefs() && m.gre() == self.gre() && m.dre() == self.dre() && m.ldefs()
                    == self.ldefs() && m.lre() == self.lre() && m.cursor_spec()
                    == self.cursor_spec(),
                Err(e) => e == AsmError::DuplicateLabel && self.ddefs()[id.0 as int] is Some,
            },
    {
        if self.tables.dynamic_defs[id.0].is_some() {
            return Err(AsmError::DuplicateLabel);
        }
        let AssemblyModifier { buffer, mut tables, cursor } = self;
        tables.dynamic_defs[id.0] = Some(cursor);
        Ok(AssemblyModifier { buffer, tables, cursor })
    }

    /// Record a pending dynamic relocation whose field is the last `size`
    /// bytes before the cursor.
    pub fn dynamic_reloc(self, id: DynamicLabel, size: u8) -> (r: AssemblyModifier)
        requires
            valid_size(size),
        ensures
            r.dre() == self.dre().push((PatchLoc { end: self.cursor_spec() as usize, size }, id.0)),
            r.bytes() == self.bytes(),
            r.live_len() == self.live_len(),
            r.gdefs() == self.gdefs(),
            r.gre() == self.gre(),
            r.ddefs() == self.ddefs(),
            r.ldefs() == self.ldefs(),
            r.lre() == self.lre(),
            r.cursor_spec() == self.cursor_spec(),
    {
        let AssemblyModifier { buffer, mut tables, cursor } = self;
        tables.dynamic_relocs.push((PatchLoc { end: cursor, size }, id.0));
        AssemblyModifier { buffer, tables, cursor }
    }

    /// Define the local label `name` at the cursor: every pending forward
    /// reference to it is patched into the writable mapping and dropped,
    /// and the definition overrides any earlier one.
    pub fn local_label(self, name: &'static str) -> (r: AssemblyModifier)
        ensures
            r.bytes() == gpatch_list(
                self.bytes(),
                pending_for(self.lre(), name@),
                self.cursor_spec(),
            ),
            r.bytes().len() == self.bytes().len(),
            r.live_len() == self.live_len(),
            r.ldefs() == self.ldefs().push((name@, self.cursor_spec() as usize)),
            r.lre() == without_name(self.lre(), name@),
            r.gdefs() == self.gdefs(),
            r.gre() == self.gre(),
            r.ddefs() == self.ddefs(),
            r.dre() == self.dre(),
            r.cursor_spec() == self.cursor_spec(),
    {
        let AssemblyModifier { mut buffer, mut tables, cursor } = self;
        let matched = drain_matching(&mut tables.local_relocs, name);
        let ghost locs = matched@;
        let n = matched.len();
        let mut i: usize = 0;
        while i < n
            invariant
                i <= n,
                n == locs.len(),
                matched@ == locs,
                buffer.bytes() == gpatch_list(self.bytes(), locs.take(i as int), cursor as nat),
                buffer.bytes().len() == self.bytes().len(),
                buffer.spec_len() == self.live_len(),
            decreases n - i,
        {
            proof {
                assert(locs.take(i + 1).drop_last() =~= locs.take(i as int));
                assert(locs.take(i + 1).last() == locs[i as int]);
            }
            let loc = matched[i];
            patch_buffer(&mut buffer, loc, cursor);
            i = i + 1;
        }
        proof {
            assert(locs.take(n as int) =~= locs);
        }
        tables.local_defs.push((name, cursor));
        proof {
            assert(defs_view(tables.local_defs@) =~= self.ldefs().push((name@, cursor)));
        }
        AssemblyModifier { buffer, tables, cursor }
    }

    /// Queue a forward reference to the local label `name` whose field is
    /// the last `size` bytes before the cursor.
    pub fn forward_reloc(self, name: &'static str, size: u8) -> (r: AssemblyModifier)
        requires
            valid_size(size),
        ensures
            r.lre() == self.lre().push((name@, PatchLoc { end: self.cursor_spec() as usize, size })),
            r.bytes() == self.bytes(),
            r.live_len() == self.live_len(),
            r.gdefs() == self.gdefs(),
            r.gre() == self.gre(),
            r.ddefs() == self.ddefs(),
            r.dre() == self.dre(),
            r.ldefs() == self.ldefs(),
            r.cursor_spec() == self.cursor_spec(),
    {
        let AssemblyModifier { buffer, mut tables, cursor } = self;
        tables.local_relocs.push((name, PatchLoc { end: cursor, size }));
        proof {
            assert(lrelocs_view(tables.local_relocs@) =~= self.lre().push(
                (name@, PatchLoc { end: cursor, size }),
            ));
        }
        AssemblyModifier { buffer, tables, cursor }
    }

    /// Patch the last `size` bytes before the cursor with the displacement
    /// to the most recent definition of the local label `name`.
    pub fn backward_reloc(self, name: &'static str, size: u8) -> (r: Result<
        AssemblyModifier,
        AsmError,
    >)
        requires
            valid_size(size),
        ensures
            match r {
                Ok(m) => lookup(self.ldefs(), name@) is Some && m.bytes() == guarded_patch(
                    self.bytes(),
                    PatchLoc { end: self.cursor_spec() as usize, size },
                    lookup(self.ldefs(), name@)->Some_0 as nat,
                ) && m.bytes().len() == self.bytes().len() && m.live_len() == self.live_len()
                    && m.gdefs() == self.gdefs() && m.gre() == self.gre() && m.ddefs()
                    == self.ddefs() && m.dre() == self.dre() && m.ldefs() == self.ldefs() && m.lre()
                    == self.lre() && m.cursor_spec() == self.cursor_spec(),
                Err(e) => e == AsmError::UnknownLabel && lookup(self.ldefs(), name@) is None,
            },
    {
        match lookup_def(&self.tables.local_defs, name) {
            Some(target) => {
                let AssemblyModifier { mut buffer, tables, cursor } = self;
                patch_buffer(&mut buffer, PatchLoc { end: cursor, size }, target);
                Ok(AssemblyModifier { buffer, tables, cursor })
            },
            None => Err(AsmError::UnknownLabel),
        }
    }
}

impl UncommittedModifier {
    /// The staged bytes under modification.
    pub closed spec fn ops_spec(&self) -> Seq<u8> {
        self.ops@
    }

    /// The absolute offset of staged byte 0.
    pub closed spec fn base_spec(&self) -> nat {
        self.base as nat
    }

    /// The modification cursor.
    pub closed spec fn cursor_spec(&self) -> nat {
        self.cursor as nat
    }

    /// The modification cursor as an absolute offset.
    pub fn offset(&self) -> (r: AssemblyOffset)
        ensures
            r.0 as nat == self.cursor_spec(),
    {
        AssemblyOffset(self.cursor)
    }

    /// Move the modification cursor.
    pub fn goto(self, offset: AssemblyOffset) -> (r: UncommittedModifier)
        ensures
            r.cursor_spec() == offset.0 as nat,
            r.ops_spec() == self.ops_spec(),
            r.base_spec() == self.base_spec(),
    {
        UncommittedModifier { cursor: offset.0, ..self }
    }

    /// Fail unless the cursor is at most `offset`.
    pub fn check(&self, offset: AssemblyOffset) -> (r: Result<(), AsmError>)
        ensures
            r is Ok <==> self.cursor_spec() <= offset.0 as nat,
            r is Err ==> r->Err_0 == AsmError::OffsetCheckFailed,
    {
        if self.cursor > offset.0 {
            Err(AsmError::OffsetCheckFailed)
        } else {
            Ok(())
        }
    }

    /// Fail unless the cursor is exactly `offset`.
    pub fn check_exact(&self, offset: AssemblyOffset) -> (r: Result<(), AsmError>)
        ensures
            r is Ok <==> self.cursor_spec() == offset.0 as nat,
            r is Err ==> r->Err_0 == AsmError::OffsetCheckFailed,
    {
        if self.cursor != offset.0 {
            Err(AsmError::OffsetCheckFailed)
        } else {
            Ok(())
        }
    }

    /// Overwrite one staged byte at the cursor and advance it.
    pub fn push(self, value: u8) -> (r: UncommittedModifier)
        requires
            self.base_spec() <= self.cursor_spec(),
            self.cursor_spec() - self.base_spec() < self.ops_spec().len(),
            self.cursor_spec() + 1 <= usize::MAX,
        ensures
            r.ops_spec() == self.ops_spec().update(
                self.cursor_spec() - self.base_spec(),
                value,
            ),
            r.ops_spec().len() == self.ops_spec().len(),
            r.base_spec() == self.base_spec(),
            r.cursor_spec() == self.cursor_spec() + 1,
    {
        let UncommittedModifier { mut ops, base, cursor } = self;
        ops[cursor - base] = value;
        UncommittedModifier { ops, base, cursor: cursor + 1 }
    }

    /// Overwrite a run of staged bytes starting at the cursor.
    pub fn extend(self, bytes: &[u8]) -> (r: UncommittedModifier)
        requires
            self.base_spec() <= self.cursor_spec(),
            self.cursor_spec() - self.base_spec() + bytes@.len() <= self.ops_spec().len(),
            self.cursor_spec() + bytes@.len() <= usize::MAX,
        ensures
            r.ops_spec() == crate::disp::splice(
                self.ops_spec(),
                self.cursor_spec() - self.base_spec(),
                bytes@,
            ),
            r.ops_spec().len() == self.ops_spec().len(),
            r.base_spec() == self.base_spec(),
            r.cursor_spec() == self.cursor_spec() + bytes@.len(),
    {
        let mut m = self;
        let mut i: usize = 0;
        while i < bytes.len()
            invariant
                i <= bytes@.len(),
                m.base_spec() == self.base_spec(),
                m.cursor_spec() == self.cursor_spec() + i as nat,
                self.base_spec() <= self.cursor_spec(),
                self.cursor_spec() - self.base_spec() + bytes@.len() <= self.ops_spec().len(),
                self.cursor_spec() + bytes@.len() <= usize::MAX,
                m.ops_spec().len() == self.ops_spec().len(),
                m.ops_spec() == self.ops_spec().take(
                    self.cursor_spec() - self.base_spec(),
                ) + bytes@.take(i as int) + self.ops_spec().skip(
                    self.cursor_spec() - self.base_spec() + i,
                ),
            decreases bytes@.len() - i,
        {
            proof {
                let at = self.cursor_spec() - self.base_spec();
                assert(m.ops_spec().update(at + i, bytes@[i as int]) =~= self.ops_spec().take(at)
                    + bytes@.take(i + 1) + self.ops_spec().skip(at + i + 1));
            }
            m = m.push(bytes[i]);
            i = i + 1;
        }
        proof {
            let at = self.cursor_spec() - self.base_spec();
            assert(bytes@.take(bytes@.len() as int) =~= bytes@);
            assert(m.ops_spec() =~= crate::disp::splice(self.ops_spec(), at as int, bytes@));
        }
        m
    }
}

impl Assembler {
    /// Run `f` over a modifier that edits the staged, not yet committed
    /// bytes in place. The staging window, the published code and the
    /// label state are unaffected; only staged byte values change.
    pub fn alter_uncommitted<F: FnOnce(UncommittedModifier) -> UncommittedModifier>(
        &mut self,
        f: F,
    )
        requires
            old(self).wf(),
            forall|m: UncommittedModifier| call_requires(f, (m,)),
        ensures
            final(self).wf(),
            final(self)@.start == old(self)@.start,
            final(self)@.ops.len() == old(self)@.ops.len(),
            final(self)@ == (AsmModel { ops: final(self)@.ops, ..old(self)@ }),
            exists|m1: UncommittedModifier, m2: UncommittedModifier|
                {
                    &&& m1.ops_spec() == old(self)@.ops
                    &&& m1.base_spec() == old(self)@.start
                    &&& m1.cursor_spec() == old(self)@.start
                    &&& #[trigger] call_ensures(f, (m1,), m2)
                    &&& (m2.ops_spec().len() == old(self)@.ops.len() ==> final(self)@.ops
                        == m2.ops_spec())
                },
    {
        let expected = self.ops.len();
        let mut staged: Vec<u8> = Vec::new();
        std::mem::swap(&mut staged, &mut self.ops);
        let m1 = UncommittedModifier { ops: staged, base: self.asmoffset, cursor: self.asmoffset };
        let ghost gm1 = m1;
        let m2 = f(m1);
        let ghost gm2 = m2;
        let mut newops = m2.ops;
        // The modifier cannot change the staging length, but nothing ties
        // the returned value to the one handed in; hold the length anyway.
        while newops.len() > expected
            invariant
                gm2.ops_spec().len() == expected ==> newops@ == gm2.ops_spec(),
            decreases newops@.len(),
        {
            newops.pop();
        }
        while newops.len() < expected
            invariant
                newops@.len() <= expected,
                gm2.ops_spec().len() == expected ==> newops@ == gm2.ops_spec(),
            decreases expected - newops@.len(),
        {
            newops.push(0x90);
        }
        self.ops = newops;
        proof {
            assert(self@ =~= (AsmModel { ops: self@.ops, ..old(self)@ }));
            assert(call_ensures(f, (gm1,), gm2));
        }
    }

    /// Commit, flip the mapping to its writable state under the exclusive
    /// lock, run `f` over a modifier that edits it in place, resolve the
    /// relocations the modifier recorded against the mapping, and flip it
    /// back. Label definitions survive; the staging window is restored. A
    /// reference that does not resolve, or a forward local reference left
    /// open, fails the alteration; the unresolved references are dropped
    /// and every byte `f` wrote stays.
    pub fn alter<F: FnOnce(AssemblyModifier) -> AssemblyModifier>(&mut self, f: F) -> (r: Result<
        (),
        AsmError,
    >)
        requires
            old(self).wf(),
            forall|m: AssemblyModifier| call_requires(f, (m,)),
        ensures
            final(self).wf(),
            r is Ok ==> commit_ready(old(self)@) && exists|
                m1: AssemblyModifier,
                m2: AssemblyModifier,
            |
                {
                    let mc = commit_model(old(self)@);
                    &&& modifier_start(m1, mc)
                    &&& #[trigger] call_ensures(f, (m1,), m2)
                    &&& alter_resolvable(m2)
                    &&& alter_aftermath(m2, final(self)@)
                    &&& final(self)@.published == gpatch_dynamics(
                        gpatch_globals(m2.bytes(), m2.gre(), m2.gdefs()),
                        m2.dre(),
                        m2.ddefs(),
                    )
                    &&& (m2.bytes().len() == mc.published.len() ==> final(self)@.start == mc.start)
                },
            r is Err ==> r->Err_0 == AsmError::UnknownLabel && ((!commit_ready(old(self)@)
                && *final(self) == *old(self)) || exists|
                m1: AssemblyModifier,
                m2: AssemblyModifier,
            |
                {
                    let mc = commit_model(old(self)@);
                    &&& modifier_start(m1, mc)
                    &&& #[trigger] call_ensures(f, (m1,), m2)
                    &&& !alter_resolvable(m2)
                    &&& alter_aftermath(m2, final(self)@)
                    &&& final(self)@.published == m2.bytes()
                    &&& (m2.bytes().len() == mc.published.len() ==> final(self)@.start == mc.start)
                }),
    {
        match self.commit() {
            Ok(()) => {
            },
            Err(e) => {
                return Err(e);
            },
        }
        let ghost mc = commit_model(old(self)@);
        proof {
            assert(self@ == mc);
            assert(mc.ops.len() == 0);
            if mc.global_relocs.len() > 0 {
                assert(loc_in(mc.global_relocs[0].0, mc.start, mc.ops.len()));
            }
            if mc.dynamic_relocs.len() > 0 {
                assert(loc_in(mc.dynamic_relocs[0].0, mc.start, mc.ops.len()));
            }
            if mc.local_relocs.len() > 0 {
                assert(loc_in(mc.local_relocs[0].1, mc.start, mc.ops.len()));
            }
            assert((*self.execbuffer).pred() == (CapPred { cap: self.map_len as nat }));
            assert(self.map_len as nat == mc.published.len());
        }
        let saved = self.asmoffset;
        let mut tabs = Tables::empty();
        std::mem::swap(&mut tabs, &mut self.tables);
        let mb = MutableBuffer::from_vec(crate::tables::vec_copy(&self.image), saved);
        let m1 = AssemblyModifier { buffer: mb, tables: tabs, cursor: 0 };
        let ghost gm1 = m1;
        proof {
            assert(gm1.bytes() == mc.published);
            assert(gm1.live_len() == mc.start);
            assert(modifier_start(gm1, mc));
        }
        let m2 = f(m1);
        let ghost gm2 = m2;
        let AssemblyModifier { buffer: mut mbuf, tables: mut tabs2, cursor: _cursor } = m2;
        proof {
            assert(gm2.bytes() == mbuf.bytes());
        }

        // Validate every reference before patching anything.
        let mut failed = tabs2.local_relocs.len() > 0;
        proof {
            if failed {
                assert(gm2.lre().len() > 0);
            }
        }
        let glen = tabs2.global_relocs.len();
        let mut i: usize = 0;
        while i < glen
            invariant
                i <= glen,
                glen == tabs2.global_relocs@.len(),
                tabs2.global_defs == gm2.tables.global_defs,
                tabs2.global_relocs == gm2.tables.global_relocs,
                failed ==> !alter_resolvable(gm2),
                !failed ==> gm2.lre().len() == 0,
                !failed ==> forall|j: int|
                    0 <= j < i ==> lookup(gm2.gdefs(), #[trigger] gm2.gre()[j].1) is Some,
            decreases glen - i,
        {
            let e = tabs2.global_relocs[i];
            proof {
                assert(gm2.gre()[i as int] == (e.0, e.1@));
            }
            if lookup_def(&tabs2.global_defs, e.1).is_none() {
                failed = true;
                proof {
                    assert(lookup(gm2.gdefs(), gm2.gre()[i as int].1) is None);
                    assert(!globals_resolved(gm2.gre(), gm2.gdefs()));
                }
            }
            i = i + 1;
        }
        let dlen = tabs2.dynamic_relocs.len();
        let mut i: usize = 0;
        while i < dlen
            invariant
                i <= dlen,
                dlen == tabs2.dynamic_relocs@.len(),
                tabs2.global_defs == gm2.tables.global_defs,
                tabs2.global_relocs == gm2.tables.global_relocs,
                tabs2.dynamic_defs == gm2.tables.dynamic_defs,
                tabs2.dynamic_relocs == gm2.tables.dynamic_relocs,
                glen == gm2.gre().len(),
                failed ==> !alter_resolvable(gm2),
                !failed ==> gm2.lre().len() == 0,
                !failed ==> forall|j: int|
                    0 <= j < glen ==> lookup(gm2.gdefs(), #[trigger] gm2.gre()[j].1) is Some,
                !failed ==> forall|j: int|
                    0 <= j < i ==> (#[trigger] gm2.dre()[j].1 < gm2.ddefs().len() && gm2.ddefs()[gm2.dre()[j].1 as int] is Some),
            decreases dlen - i,
        {
            let e = tabs2.dynamic_relocs[i];
            proof {
                assert(gm2.dre()[i as int] == e);
            }
            if e.1 >= tabs2.dynamic_defs.len() {
                failed = true;
                proof {
                    assert(!dynamics_resolved(gm2.dre(), gm2.ddefs()));
                }
            } else if tabs2.dynamic_defs[e.1].is_none() {
                failed = true;
                proof {
                    assert(!dynamics_resolved(gm2.dre(), gm2.ddefs()));
                }
            }
            i = i + 1;
        }

        if !failed {
            // Resolve the recorded relocations against the writable
            // mapping, in record order.
            let mut i: usize = 0;
            while i < glen
                invariant
                    i <= glen,
                    glen == tabs2.global_relocs@.len(),
                    tabs2.global_defs == gm2.tables.global_defs,
                    tabs2.global_relocs == gm2.tables.global_relocs,
                    mbuf.bytes() == gpatch_globals(
                        gm2.bytes(),
                        gm2.gre().take(i as int),
                        gm2.gdefs(),
                    ),
                    mbuf.bytes().len() == gm2.bytes().len(),
                    mbuf.spec_len() == gm2.live_len(),
                    forall|j: int|
                        0 <= j < glen ==> lookup(gm2.gdefs(), #[trigger] gm2.gre()[j].1) is Some,
                decreases glen - i,
            {
                let e = tabs2.global_relocs[i];
                proof {
                    assert(gm2.gre()[i as int] == (e.0, e.1@));
                    assert(gm2.gre().take(i + 1).drop_last() =~= gm2.gre().take(i as int));
                    assert(gm2.gre().take(i + 1).last() == gm2.gre()[i as int]);
                }
                proof {
                    assert(lookup(gm2.gdefs(), gm2.gre()[i as int].1) is Some);
                }
                match lookup_def(&tabs2.global_defs, e.1) {
                    Some(t) => {
                        patch_buffer(&mut mbuf, e.0, t);
                    },
                    None => {
                        // the validation pass has already resolved this name
                        proof {
                            assert(false);
                        }
                    },
                }
                i = i + 1;
            }
            proof {
                assert(gm2.gre().take(glen as int) =~= gm2.gre());
            }
            let ghost after_globals = gpatch_globals(gm2.bytes(), gm2.gre(), gm2.gdefs());
            let mut i: usize = 0;
            while i < dlen
                invariant
                    i <= dlen,
                    dlen == tabs2.dynamic_relocs@.len(),
                    tabs2.dynamic_defs == gm2.tables.dynamic_defs,
                    tabs2.dynamic_relocs == gm2.tables.dynamic_relocs,
                    after_globals == gpatch_globals(gm2.bytes(), gm2.gre(), gm2.gdefs()),
                    mbuf.bytes() == gpatch_dynamics(
                        after_globals,
                        gm2.dre().take(i as int),
                        gm2.ddefs(),
                    ),
                    mbuf.bytes().len() == gm2.bytes().len(),
                    mbuf.spec_len() == gm2.live_len(),
                    forall|j: int|
                        0 <= j < dlen ==> (#[trigger] gm2.dre()[j].1 < gm2.ddefs().len()
                            && gm2.ddefs()[gm2.dre()[j].1 as int] is Some),
                decreases dlen - i,
            {
                let e = tabs2.dynamic_relocs[i];
                proof {
                    assert(gm2.dre()[i as int] == e);
                    assert(gm2.dre().take(i + 1).drop_last() =~= gm2.dre().take(i as int));
                    assert(gm2.dre().take(i + 1).last() == gm2.dre()[i as int]);
                }
                match tabs2.dynamic_defs[e.1] {
                    Some(t) => {
                        patch_buffer(&mut mbuf, e.0, t);
                    },
                    None => {
                        // the validation pass has already resolved this name
                        proof {
                            assert(false);
                        }
                    },
                }
                i = i + 1;
            }
            proof {
                assert(gm2.dre().take(dlen as int) =~= gm2.dre());
                assert(mbuf.bytes() == gpatch_dynamics(
                    gpatch_globals(gm2.bytes(), gm2.gre(), gm2.gdefs()),
                    gm2.dre(),
                    gm2.ddefs(),
                ));
            }
        }

        // Drop the consumed (or unresolvable) relocation records, adopt the
        // modifier's image, publish a copy of it under the exclusive lock,
        // and restore the staging window.
        tabs2.global_relocs = Vec::new();
        tabs2.dynamic_relocs = Vec::new();
        tabs2.local_relocs = Vec::new();
        self.tables = tabs2;
        mbuf.clamp_len();
        let (new_image, live) = mbuf.into_parts();
        self.image = new_image;
        let cap = self.image.len();
        let (stale, wh) = self.execbuffer.acquire_write();
        if cap == self.map_len {
            let _ = stale;
            wh.release_write(
                ExecutableBuffer::from_vec(crate::tables::vec_copy(&self.image), live),
            );
            proof {
                assert((*self.execbuffer).pred() == (CapPred { cap: self.map_len as nat }));
            }
        } else {
            // The modifier's methods never change the mapping capacity,
            // but nothing ties the returned modifier to the one handed to
            // `f`: surviving readers keep the original mapping, and the
            // returned image is published under a fresh handle.
            wh.release_write(stale);
            self.execbuffer = Arc::new(
                RwLock::<ExecutableBuffer, CapPred>::new(
                    ExecutableBuffer::from_vec(crate::tables::vec_copy(&self.image), live),
                    Ghost(CapPred { cap: cap as nat }),
                ),
            );
            self.map_len = cap;
            proof {
                assert((*self.execbuffer).pred() == (CapPred { cap: self.map_len as nat }));
            }
        }
        self.asmoffset = if saved <= cap {
            saved
        } else {
            cap
        };
        self.ops = Vec::new();
        proof {
            assert(grelocs_view(self.tables.global_relocs@) =~= Seq::<
                (PatchLoc, Seq<char>),
            >::empty());
            assert(lrelocs_view(self.tables.local_relocs@) =~= Seq::<
                (Seq<char>, PatchLoc),
            >::empty());
            assert(self@.ops =~= Seq::<u8>::empty());
            assert(wf_model(self@));
            assert(self.wf());
        }
        if failed {
            proof {
                assert(call_ensures(f, (gm1,), gm2));
                assert(modifier_start(gm1, mc));
                assert(!alter_resolvable(gm2));
                assert(alter_aftermath(gm2, self@));
                assert(self@.published == gm2.bytes());
                assert(gm2.bytes().len() == mc.published.len() ==> self@.start == mc.start);
            }
            Err(AsmError::UnknownLabel)
        } else {
            proof {
                assert(call_ensures(f, (gm1,), gm2));
                assert(modifier_start(gm1, mc));
                assert(alter_resolvable(gm2));
                assert(alter_aftermath(gm2, self@));
                assert(self@.published == gpatch_dynamics(
                    gpatch_globals(gm2.bytes(), gm2.gre(), gm2.gdefs()),
                    gm2.dre(),
                    gm2.ddefs(),
                ));
                assert(gm2.bytes().len() == mc.published.len() ==> self@.start == mc.start);
            }
            Ok(())
        }
    }
}


} // verus!
