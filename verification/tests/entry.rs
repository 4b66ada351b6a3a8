use pantograph::wf_wf::spsc_bounded_overwriting_lending::Entry;

#[test]
fn pack_puts_the_sequence_number_above_the_slot() {
    assert_eq!(Entry::pack(0, 0), 0);
    assert_eq!(Entry::pack(1, 2), 0x1_0000_0002);
    assert_eq!(Entry::pack(u32::MAX, 0), 0xffff_ffff_0000_0000);
    assert_eq!(Entry::pack(0, u32::MAX), 0xffff_ffff);
}

#[test]
fn unpack_splits_a_word() {
    assert_eq!(Entry::unpack(0x1234_5678_9abc_def0), (0x1234_5678, 0x9abc_def0));
    assert_eq!(Entry::unpack(u64::MAX), (u32::MAX, u32::MAX));
}

#[test]
fn packing_round_trips_on_the_edges() {
    for seq in [0, 1, 0x8000_0000, u32::MAX] {
        for slot in [0, 1, 0x8000_0000, u32::MAX] {
            assert_eq!(Entry::unpack(Entry::pack(seq, slot)), (seq, slot));
        }
    }
    for word in [0, 1, 0xffff_ffff, 0x1_0000_0000, u64::MAX] {
        let (seq, slot) = Entry::unpack(word);
        assert_eq!(Entry::pack(seq, slot), word);
    }
}
