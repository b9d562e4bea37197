use dynasmrt::Assembler;
use dynasmrt::AssemblyOffset;
use dynasmrt::AsmError;
use dynasmrt::ExecutableBuffer;

#[test]
fn offset_advances_with_each_emit() {
    let mut a = Assembler::new();
    assert_eq!(a.offset(), AssemblyOffset(0));
    a.push(0xC3);
    assert_eq!(a.offset(), AssemblyOffset(1));
    a.extend(&[1, 2, 3]);
    assert_eq!(a.offset(), AssemblyOffset(4));
    a.push(0x90);
    assert_eq!(a.offset(), AssemblyOffset(5));
}

#[test]
fn align_pads_with_nops_to_the_boundary() {
    let mut a = Assembler::new();
    a.push(0xC3);
    a.align(4);
    assert_eq!(a.offset(), AssemblyOffset(4));
    a.align(4);
    assert_eq!(a.offset(), AssemblyOffset(4));
    a.commit().unwrap();
    let buf = a.finalize().ok().unwrap();
    assert_eq!(buf.code(), vec![0xC3, 0x90, 0x90, 0x90]);
}

#[test]
fn call_site_to_global_label_gets_zero_displacement() {
    let mut a = Assembler::new();
    a.extend(&[0xE8, 0x00, 0x00, 0x00, 0x00]);
    a.global_reloc("f", 4);
    a.global_label("f").unwrap();
    a.commit().unwrap();
    let ex = a.reader();
    assert_eq!(ex.len(), 5);
    assert_eq!(ex.code(), vec![0xE8, 0x00, 0x00, 0x00, 0x00]);
}

#[test]
fn forward_reference_patches_to_the_later_definition() {
    let mut a = Assembler::new();
    a.extend(&[0xEB, 0x00]);
    a.forward_reloc("L", 1);
    a.extend(&[0x90, 0x90, 0x90, 0x90, 0x90]);
    a.local_label("L");
    a.commit().unwrap();
    let ex = a.reader();
    assert_eq!(ex.byte_at(1), Some(0x05));
}

#[test]
fn backward_reference_patches_to_the_most_recent_definition() {
    let mut a = Assembler::new();
    a.local_label("A");
    a.extend(&[0x90, 0x90, 0x90]);
    a.extend(&[0xEB, 0x00]);
    a.backward_reloc("A", 1).unwrap();
    a.commit().unwrap();
    let ex = a.reader();
    assert_eq!(ex.byte_at(4), Some(0xFB));
}

#[test]
fn redefined_local_label_wins() {
    let mut a = Assembler::new();
    a.local_label("x");
    a.extend(&[0x90, 0x90]);
    a.local_label("x");
    a.extend(&[0xEB, 0x00]);
    a.backward_reloc("x", 1).unwrap();
    a.commit().unwrap();
    let ex = a.reader();
    // displacement from offset 4 back to the later definition at 2
    assert_eq!(ex.byte_at(3), Some(0xFE));
}

#[test]
fn dynamic_label_negative_displacement_is_two_complement() {
    let mut a = Assembler::new();
    let id = a.new_dynamic_label();
    a.dynamic_label(id).unwrap();
    a.extend(&[0xE9, 0x00, 0x00, 0x00, 0x00]);
    a.dynamic_reloc(id, 4);
    a.commit().unwrap();
    let ex = a.reader();
    // displacement 0 - 5 = -5, little-endian two's complement
    assert_eq!(ex.byte_at(1), Some(0xFB));
    assert_eq!(ex.byte_at(2), Some(0xFF));
    assert_eq!(ex.byte_at(3), Some(0xFF));
    assert_eq!(ex.byte_at(4), Some(0xFF));
}

#[test]
fn duplicate_global_label_is_refused() {
    let mut a = Assembler::new();
    a.global_label("f").unwrap();
    assert_eq!(a.global_label("f"), Err(AsmError::DuplicateLabel));
}

#[test]
fn duplicate_dynamic_label_is_refused() {
    let mut a = Assembler::new();
    let id = a.new_dynamic_label();
    a.dynamic_label(id).unwrap();
    assert_eq!(a.dynamic_label(id), Err(AsmError::DuplicateLabel));
}

#[test]
fn backward_reference_to_undefined_label_is_refused() {
    let mut a = Assembler::new();
    a.extend(&[0xEB, 0x00]);
    assert_eq!(a.backward_reloc("nowhere", 1), Err(AsmError::UnknownLabel));
}

#[test]
fn commit_with_unresolved_global_fails_and_changes_nothing() {
    let mut a = Assembler::new();
    a.extend(&[0xE8, 0x00, 0x00, 0x00, 0x00]);
    a.global_reloc("late", 4);
    assert_eq!(a.commit(), Err(AsmError::UnknownLabel));
    // the failed commit left the assembler as it was: define and retry
    a.global_label("late").unwrap();
    a.commit().unwrap();
    let ex = a.reader();
    assert_eq!(ex.code(), vec![0xE8, 0x00, 0x00, 0x00, 0x00]);
}

#[test]
fn commit_with_open_forward_reference_fails() {
    let mut a = Assembler::new();
    a.extend(&[0xEB, 0x00]);
    a.forward_reloc("open", 1);
    assert_eq!(a.commit(), Err(AsmError::UnknownLabel));
}

#[test]
fn commit_twice_equals_commit_once() {
    let mut a = Assembler::new();
    a.extend(&[1, 2, 3, 4]);
    a.commit().unwrap();
    let before = a.reader().code();
    let off = a.offset();
    a.commit().unwrap();
    assert_eq!(a.offset(), off);
    assert_eq!(a.reader().code(), before);
}

#[test]
fn growth_past_the_initial_mapping_preserves_code() {
    let mut a = Assembler::new();
    let mut bytes = Vec::new();
    for i in 0..5000usize {
        bytes.push((i % 251) as u8);
    }
    a.extend(&bytes);
    a.commit().unwrap();
    let ex = a.reader();
    assert_eq!(ex.len(), 5000);
    assert_eq!(ex.byte_at(0), Some(0));
    assert_eq!(ex.byte_at(4999), Some((4999 % 251) as u8));
    drop(ex);
    let buf = a.finalize().ok().unwrap();
    assert_eq!(buf.len(), 5000);
    assert!(buf.capacity() >= 8192);
    assert_eq!(buf.code(), bytes);
}

#[test]
fn incremental_commits_keep_earlier_code() {
    let mut a = Assembler::new();
    a.extend(&[0xAA, 0xBB]);
    a.commit().unwrap();
    a.extend(&[0xCC]);
    a.commit().unwrap();
    let ex = a.reader();
    assert_eq!(ex.code(), vec![0xAA, 0xBB, 0xCC]);
}

#[test]
fn alter_overwrites_published_code_in_place() {
    let mut a = Assembler::new();
    a.extend(&[0xC3, 0xC3, 0xC3]);
    a.commit().unwrap();
    a.alter(|m| {
        let m = m.goto(AssemblyOffset(0));
        m.push(0x90)
    })
    .unwrap();
    let ex = a.reader();
    assert_eq!(ex.code(), vec![0x90, 0xC3, 0xC3]);
}

#[test]
fn alter_resolves_labels_against_the_mapping() {
    let mut a = Assembler::new();
    a.extend(&[0x90, 0x90, 0x90, 0x90, 0x90, 0x90, 0x90]);
    a.commit().unwrap();
    a.alter(|m| {
        let m = m.goto(AssemblyOffset(0));
        let m = m.extend(&[0xEB, 0x00]);
        let m = m.forward_reloc("T", 1);
        let m = m.goto(AssemblyOffset(5));
        m.local_label("T")
    })
    .unwrap();
    let ex = a.reader();
    // displacement from field end 2 to the label at 5
    assert_eq!(ex.byte_at(1), Some(0x03));
}

#[test]
fn alter_with_unresolved_global_reports_unknown_label() {
    let mut a = Assembler::new();
    a.extend(&[0x90, 0x90, 0x90, 0x90, 0x90]);
    a.commit().unwrap();
    let r = a.alter(|m| {
        let m = m.goto(AssemblyOffset(5));
        m.global_reloc("missing", 4)
    });
    assert_eq!(r, Err(AsmError::UnknownLabel));
}

#[test]
fn alter_uncommitted_edits_staged_bytes() {
    let mut a = Assembler::new();
    a.extend(&[1, 2, 3]);
    a.alter_uncommitted(|m| {
        let m = m.goto(AssemblyOffset(1));
        m.push(0x7F)
    });
    a.commit().unwrap();
    let ex = a.reader();
    assert_eq!(ex.code(), vec![1, 0x7F, 3]);
}

#[test]
fn alter_uncommitted_respects_the_staging_window() {
    let mut a = Assembler::new();
    a.extend(&[0xAA]);
    a.commit().unwrap();
    a.extend(&[1, 2, 3]);
    // staged bytes live at absolute offsets 1..4 now
    a.alter_uncommitted(|m| {
        assert_eq!(m.offset(), AssemblyOffset(1));
        let m = m.goto(AssemblyOffset(3));
        m.push(9)
    });
    a.commit().unwrap();
    let ex = a.reader();
    assert_eq!(ex.code(), vec![0xAA, 1, 2, 9]);
}

#[test]
fn modifier_offset_checks_report_failures() {
    let mut a = Assembler::new();
    a.extend(&[1, 2, 3]);
    a.alter_uncommitted(|m| {
        let m = m.goto(AssemblyOffset(2));
        assert_eq!(m.check(AssemblyOffset(2)), Ok(()));
        assert_eq!(m.check(AssemblyOffset(3)), Ok(()));
        assert_eq!(m.check(AssemblyOffset(1)), Err(AsmError::OffsetCheckFailed));
        assert_eq!(m.check_exact(AssemblyOffset(2)), Ok(()));
        assert_eq!(
            m.check_exact(AssemblyOffset(3)),
            Err(AsmError::OffsetCheckFailed)
        );
        m
    });
}

#[test]
fn finalize_fails_while_a_reader_exists_and_succeeds_after() {
    let mut a = Assembler::new();
    a.extend(&[0xC3]);
    a.commit().unwrap();
    let ex = a.reader();
    a = match a.finalize() {
        Ok(_) => panic!("finalize must fail while an executor is alive"),
        Err(a) => a,
    };
    drop(ex);
    let buf = a.finalize().ok().unwrap();
    assert_eq!(buf.code(), vec![0xC3]);
}

#[test]
fn fresh_reader_sees_altered_byte() {
    let mut a = Assembler::new();
    a.extend(&[0xC3]);
    a.commit().unwrap();
    a.alter(|m| {
        let m = m.goto(AssemblyOffset(0));
        m.push(0x90)
    })
    .unwrap();
    let ex = a.reader();
    assert_eq!(ex.byte_at(0), Some(0x90));
    assert_eq!(ex.byte_at(1), None);
}

#[test]
fn reader_taken_before_commit_sees_the_published_bytes() {
    let mut a = Assembler::new();
    let ex = a.reader();
    assert_eq!(ex.len(), 0);
    a.extend(&[5, 6]);
    a.commit().unwrap();
    assert_eq!(ex.len(), 2);
    assert_eq!(ex.code(), vec![5, 6]);
}

#[test]
fn protection_flips_preserve_the_stored_bytes() {
    let buf = ExecutableBuffer::new(2, 8);
    assert_eq!(buf.len(), 2);
    assert_eq!(buf.capacity(), 8);
    let mut w = buf.make_mut();
    w.write(0, 0xC3);
    w.write(1, 0x90);
    let buf = w.make_exec();
    assert_eq!(buf.code(), vec![0xC3, 0x90]);
    assert_eq!(buf.byte_at(0), 0xC3);
}

#[test]
fn cloned_executor_reads_the_same_mapping() {
    let mut a = Assembler::new();
    a.extend(&[7, 8, 9]);
    a.commit().unwrap();
    let ex = a.reader();
    let ex2 = ex.clone();
    drop(ex);
    assert_eq!(ex2.code(), vec![7, 8, 9]);
    // both clones block finalize until dropped
    a = match a.finalize() {
        Ok(_) => panic!("finalize must fail while a clone is alive"),
        Err(asmbl) => asmbl,
    };
    drop(ex2);
    assert!(a.finalize().is_ok());
}

#[test]
fn code_survives_alteration_then_further_commits() {
    let mut a = Assembler::new();
    a.extend(&[1, 2, 3]);
    a.commit().unwrap();
    a.alter(|m| {
        let m = m.goto(AssemblyOffset(0));
        m.push(0x90)
    })
    .unwrap();
    a.extend(&[4, 5]);
    a.commit().unwrap();
    let buf = a.finalize().ok().unwrap();
    assert_eq!(buf.len(), 5);
    assert_eq!(buf.code(), vec![0x90, 2, 3, 4, 5]);
}

#[test]
fn modifier_align_pads_the_mapping_with_nops() {
    let mut a = Assembler::new();
    a.extend(&[1, 2, 3, 4, 5, 6]);
    a.commit().unwrap();
    a.alter(|m| {
        let m = m.goto(AssemblyOffset(1));
        let m = m.align(4);
        m.push(0xC3)
    })
    .unwrap();
    let buf = a.finalize().ok().unwrap();
    assert_eq!(buf.code(), vec![1, 0x90, 0x90, 0x90, 0xC3, 6]);
}
