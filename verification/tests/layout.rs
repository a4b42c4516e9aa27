use rts_alloc::header::layout;
use rts_alloc::round_to_next_alignment_of;

#[test]
fn test_layout() {
    let num_workers = 4;
    let num_slabs = 8;
    let slab_size = 4096;

    let mut offset = layout::header_size();
    assert_eq!(offset, layout::HEADER_SIZE);

    offset += layout::worker_local_list_heads_size(num_workers);
    assert_eq!(offset, 384);

    offset = layout::pad_for_free_list_elements(offset);
    assert_eq!(offset, 384);

    offset += layout::free_list_elements_size(num_slabs);
    assert_eq!(offset, 480);

    offset = layout::pad_for_slab_meta(offset);
    assert_eq!(offset, 512);

    offset += layout::slab_meta_size(num_slabs);
    assert_eq!(offset, 1536);

    offset = layout::pad_for_slab_free_stacks(offset);
    assert_eq!(offset, 1536);

    offset += layout::free_stacks_size(num_slabs, slab_size);
    assert_eq!(offset, 1824);

    offset = layout::pad_for_slabs(offset, slab_size);
    assert_eq!(offset, 4096);
}

#[test]
fn test_round_to_next_alignment_of() {
    assert_eq!(round_to_next_alignment_of::<8>(7), 8);
    assert_eq!(round_to_next_alignment_of::<8>(8), 8);
    assert_eq!(round_to_next_alignment_of::<8>(9), 16);
    assert_eq!(round_to_next_alignment_of::<64>(63), 64);
    assert_eq!(round_to_next_alignment_of::<64>(64), 64);
    assert_eq!(round_to_next_alignment_of::<64>(65), 128);
}
