//! Executable label-table and patching primitives.
//!
//! The tables are plain vectors of pairs read through the spec views of
//! [`crate::model`]: a definition table is searched from the newest entry
//! backwards, so a later definition of the same name overrides an earlier
//! one, and the pending-relocation list keeps record order.
use vstd::prelude::*;
use crate::disp::valid_size;
use crate::disp::displacement_field;
use crate::model::PatchLoc;
use crate::model::lookup;
use crate::model::loc_in;
use crate::model::patch_one;
use crate::model::pending_for;
use crate::model::without_name;

verus! {

/// Relies on str's `PartialEq`: two string slices are equal exactly when
/// their character sequences are equal.
#[verifier::external_body]
pub(crate) fn str_eq(a: &str, b: &str) -> (r: bool)
    ensures
        r == (a@ == b@),
{
    a == b
}

/// A definition table as the model sees it.
pub open spec fn defs_view(entries: Seq<(&'static str, usize)>) -> Seq<(Seq<char>, usize)> {
    entries.map_values(|p: (&'static str, usize)| (p.0@, p.1))
}

/// A global relocation list as the model sees it.
pub open spec fn grelocs_view(entries: Seq<(PatchLoc, &'static str)>) -> Seq<
    (PatchLoc, Seq<char>),
> {
    entries.map_values(|p: (PatchLoc, &'static str)| (p.0, p.1@))
}

/// A local pending-relocation list as the model sees it.
pub open spec fn lrelocs_view(entries: Seq<(&'static str, PatchLoc)>) -> Seq<
    (Seq<char>, PatchLoc),
> {
    entries.map_values(|p: (&'static str, PatchLoc)| (p.0@, p.1))
}

/// Find the most recent definition of `name` in a definition table.
pub fn lookup_def(entries: &Vec<(&'static str, usize)>, name: &str) -> (r: Option<usize>)
    ensures
        r == lookup(defs_view(entries@), name@),
{
    let ghost view = defs_view(entries@);
    proof {
        assert(view.take(entries@.len() as int) =~= view);
    }
    let mut i: usize = entries.len();
    while i > 0
        invariant
            i <= entries@.len(),
            view == defs_view(entries@),
            lookup(view.take(i as int), name@) == lookup(view, name@),
        decreases i,
    {
        i = i - 1;
        let e = entries[i];
        proof {
            assert(view.take(i + 1).last() == view[i as int]);
            assert(view.take(i + 1).drop_last() =~= view.take(i as int));
        }
        if str_eq(e.0, name) {
            return Some(e.1);
        }
    }
    None
}

/// Write the displacement field of `loc` into a byte string whose byte 0
/// lives at absolute offset `base`.
pub fn patch_vec(ops: &mut Vec<u8>, base: usize, loc: PatchLoc, target: usize)
    requires
        loc_in(loc, base as nat, old(ops)@.len()),
    ensures
        final(ops)@ == patch_one(old(ops)@, base as nat, loc, target as nat),
        final(ops)@.len() == old(ops)@.len(),
{
    let field = displacement_field(target, loc.end, loc.size);
    let at = loc.end - base - (loc.size as usize);
    let cap = ops.len();
    let mut j: usize = 0;
    while j < field.len()
        invariant
            j <= field@.len(),
            cap as nat == old(ops)@.len(),
            at + field@.len() <= old(ops)@.len(),
            ops@.len() == old(ops)@.len(),
            ops@ == old(ops)@.take(at as int) + field@.take(j as int) + old(ops)@.skip(at + j),
        decreases field@.len() - j,
    {
        proof {
            assert(ops@.update(at + j, field@[j as int]) =~= old(ops)@.take(at as int)
                + field@.take(j + 1) + old(ops)@.skip(at + j + 1));
        }
        let b = field[j];
        ops[at + j] = b;
        j = j + 1;
    }
    proof {
        assert(field@.take(field@.len() as int) =~= field@);
        assert(ops@ =~= patch_one(old(ops)@, base as nat, loc, target as nat));
    }
}

/// Overwrite the bytes of `dst` starting at `at` with `data`.
pub fn write_into(dst: &mut Vec<u8>, at: usize, data: &Vec<u8>)
    requires
        at + data@.len() <= old(dst)@.len(),
    ensures
        final(dst)@ == crate::disp::splice(old(dst)@, at as int, data@),
        final(dst)@.len() == old(dst)@.len(),
{
    let cap = dst.len();
    let mut j: usize = 0;
    while j < data.len()
        invariant
            j <= data@.len(),
            at + data@.len() <= old(dst)@.len(),
            cap as nat == old(dst)@.len(),
            dst@.len() == old(dst)@.len(),
            dst@ == old(dst)@.take(at as int) + data@.take(j as int) + old(dst)@.skip(at + j),
        decreases data@.len() - j,
    {
        proof {
            assert(dst@.update(at + j, data@[j as int]) =~= old(dst)@.take(at as int) + data@.take(
                j + 1,
            ) + old(dst)@.skip(at + j + 1));
        }
        let b = data[j];
        dst[at + j] = b;
        j = j + 1;
    }
    proof {
        assert(data@.take(data@.len() as int) =~= data@);
        assert(dst@ =~= crate::disp::splice(old(dst)@, at as int, data@));
    }
}

/// A copy of a byte vector.
pub fn vec_copy(v: &Vec<u8>) -> (r: Vec<u8>)
    ensures
        r@ == v@,
{
    let mut out: Vec<u8> = Vec::new();
    let mut i: usize = 0;
    while i < v.len()
        invariant
            i <= v@.len(),
            out@ == v@.take(i as int),
        decreases v@.len() - i,
    {
        out.push(v[i]);
        proof {
            assert(out@ =~= v@.take(i + 1));
        }
        i = i + 1;
    }
    proof {
        assert(v@.take(v@.len() as int) =~= v@);
    }
    out
}

/// Remove every pending patch for `name` from the list, returning them in
/// record order.
pub fn drain_matching(relocs: &mut Vec<(&'static str, PatchLoc)>, name: &str) -> (r: Vec<PatchLoc>)
    ensures
        r@ == pending_for(lrelocs_view(old(relocs)@), name@),
        lrelocs_view(final(relocs)@) == without_name(lrelocs_view(old(relocs)@), name@),
{
    let ghost view = lrelocs_view(relocs@);
    let mut matched: Vec<PatchLoc> = Vec::new();
    let mut rest: Vec<(&'static str, PatchLoc)> = Vec::new();
    let mut i: usize = 0;
    while i < relocs.len()
        invariant
            i <= relocs@.len(),
            view == lrelocs_view(relocs@),
            matched@ == pending_for(view.take(i as int), name@),
            lrelocs_view(rest@) == without_name(view.take(i as int), name@),
        decreases relocs@.len() - i,
    {
        let e = relocs[i];
        proof {
            assert(view.take(i + 1).last() == view[i as int]);
            assert(view.take(i + 1).drop_last() =~= view.take(i as int));
        }
        if str_eq(e.0, name) {
            matched.push(e.1);
        } else {
            rest.push(e);
            proof {
                assert(lrelocs_view(rest@) =~= lrelocs_view(rest@.drop_last()).push(
                    (e.0@, e.1),
                ));
            }
        }
        i = i + 1;
    }
    proof {
        assert(view.take(relocs@.len() as int) =~= view);
    }
    *relocs = rest;
    matched
}

} // verus!
