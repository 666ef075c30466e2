use tritium_quantize::tensor_plan::{
    assemble_row, block_range, check_tensor, group_range, group_sizes, num_blocks, BlockPlane,
    BlockStack, QuantError, ScaleGroup,
};

#[test]
fn quantize_shape_mismatch_errors() {
    assert!(matches!(
        check_tensor(10, 3, 4, None),
        Err(QuantError::ShapeMismatch { rows: 3, k: 4, got: 10 })
    ));
}

#[test]
fn custom_sensitivity_wrong_len_errors() {
    // Two groups are needed, three were given.
    assert!(matches!(
        check_tensor(512, 2, 256, Some(3)),
        Err(QuantError::SensitivityLen {
            expected: 2,
            got: 3
        })
    ));
}

#[test]
fn degenerate_shapes_have_no_groups() {
    assert_eq!(check_tensor(0, 2, 0, None), Ok(0));
    assert_eq!(check_tensor(0, 0, 256, None), Ok(0));
    assert!(assemble_row(0, &[]).is_empty());
    assert_eq!(ScaleGroup::default(), ScaleGroup::Block);
}

#[test]
fn blocks_cut_a_row_with_a_short_tail() {
    assert_eq!(num_blocks(0), 0);
    assert_eq!(num_blocks(256), 1);
    assert_eq!(num_blocks(300), 2);
    assert_eq!(block_range(0, 300), (0, 256));
    assert_eq!(block_range(1, 300), (256, 300));
    assert_eq!(check_tensor(600, 2, 300, Some(4)), Ok(4));
    assert_eq!(group_range(3, 2, 300), (556, 600));
    assert_eq!(group_sizes(2, 300), vec![256, 44, 256, 44]);
}

#[test]
fn rows_gather_block_planes_and_pad_shallow_blocks() {
    let stacks = [
        BlockStack {
            planes: vec![
                BlockPlane {
                    scale: 0x3c00,
                    trits: vec![1; 256],
                },
                BlockPlane {
                    scale: 0x3800,
                    trits: vec![-1; 256],
                },
            ],
        },
        BlockStack {
            planes: vec![BlockPlane {
                scale: 0x4000,
                trits: vec![-1; 44],
            }],
        },
    ];
    let planes = assemble_row(300, &stacks);
    assert_eq!(planes.len(), 2);
    assert_eq!(planes[0].scales, vec![0x3c00, 0x4000]);
    assert_eq!(&planes[0].trits[..256], &[1; 256]);
    assert_eq!(&planes[0].trits[256..], &[-1; 44]);
    assert_eq!(planes[1].scales, vec![0x3800, 0]);
    assert_eq!(&planes[1].trits[..256], &[-1; 256]);
    assert_eq!(&planes[1].trits[256..], &[0; 44]);
}
