use wgpu_nnd::assemble::assemble;
use wgpu_nnd::assemble::concat_scratch;
use wgpu_nnd::assemble::row_slice2;
use wgpu_nnd::assemble::row_slice3;
use wgpu_nnd::assemble::scratch_offsets;
use wgpu_nnd::assemble::split_scratch;
use wgpu_nnd::descriptor::RawArray2;
use wgpu_nnd::descriptor::RawArray3;
use wgpu_nnd::descriptor::WgslArray2Info;
use wgpu_nnd::descriptor::WgslArray3Info;
use wgpu_nnd::roster::meta_record;

fn data_info_6x2() -> WgslArray2Info {
    WgslArray2Info { offset: 0, rows: 6, cols: 2, row_strides: 2, col_strides: 1 }
}

#[test]
fn address_matches_the_stride_formula() {
    let d = WgslArray2Info { offset: 3, rows: 2, cols: 3, row_strides: 4, col_strides: 1 };
    assert_eq!(d.address(0, 0), Ok(3));
    assert_eq!(d.address(1, 2), Ok(9));
    assert!(d.address(2, 0).is_err());
    assert!(d.address(0, 3).is_err());
    assert_eq!(d.len_elems(), 10);
    assert_eq!(d.byte_length(), 40);
}

#[test]
fn distinct_indices_get_distinct_addresses() {
    let d = WgslArray2Info { offset: 0, rows: 4, cols: 3, row_strides: 3, col_strides: 1 };
    let mut seen = Vec::new();
    for i in 0..4 {
        for j in 0..3 {
            let a = d.address(i, j).unwrap();
            assert!(!seen.contains(&a));
            assert!((a as u64) * 4 < d.byte_length());
            seen.push(a);
        }
    }
}

#[test]
fn info_from_raw_parts_copies_every_field() {
    let raw = RawArray2 {
        offset: 5,
        shape: [2, 3],
        strides: [4, 1],
        data: vec![1.5f32, 2.5],
    };
    let (info, data) = WgslArray2Info::new(raw);
    assert_eq!(info.offset, 5);
    assert_eq!(info.rows, 2);
    assert_eq!(info.cols, 3);
    assert_eq!(info.row_strides, 4);
    assert_eq!(info.col_strides, 1);
    assert_eq!(data, vec![1.5f32, 2.5]);
}

#[test]
fn three_d_info_from_raw_parts_copies_every_field() {
    let raw = RawArray3 {
        offset: 0,
        shape: [6, 2, 4],
        strides: [8, 4, 1],
        data: vec![-1i32; 48],
    };
    let (info, data) = WgslArray3Info::new(raw);
    assert_eq!(info.rows, 6);
    assert_eq!(info.cols, 2);
    assert_eq!(info.voxs, 4);
    assert_eq!(info.row_strides, 8);
    assert_eq!(info.col_strides, 4);
    assert_eq!(info.vox_strides, 1);
    assert_eq!(data.len(), 48);
    assert_eq!(info.len_elems(), 48);
    assert_eq!(info.byte_length(), 192);
    assert_eq!(info.address(5, 1, 3), Ok(47));
    assert!(info.address(6, 0, 0).is_err());
    assert!(info.address(0, 2, 0).is_err());
    assert!(info.address(0, 0, 4).is_err());
}

#[test]
fn assembly_sentinel_fills_every_array() {
    // N = 6, D = 2, k = 2, candidates = 4.
    let (args, bufs) = assemble(data_info_6x2(), 2, 4);
    assert_eq!(args.candidates, 4);
    assert_eq!(bufs.knn.len(), 12);
    assert_eq!(bufs.avl.len(), 48);
    assert_eq!(bufs.meta.len(), 24);
    assert_eq!(bufs.link.len(), 48);
    assert!(bufs.knn.iter().all(|v| *v == -1));
    assert!(bufs.avl.iter().all(|v| *v == -1));
    assert!(bufs.meta.iter().all(|v| *v == -1));
    assert!(bufs.link.iter().all(|v| *v == -1));
    assert_eq!(args.knn_info.row_strides, 2);
    assert_eq!(args.avl_info.row_strides, 8);
    assert_eq!(args.avl_info.col_strides, 4);
    assert_eq!(args.meta_info.row_strides, 4);
    assert_eq!(args.link_info.row_strides, 8);
    assert_eq!(args.link_info.col_strides, 2);
    // Declared logical sizes equal the physical buffer lengths.
    assert_eq!(args.knn_info.len_elems() as usize, bufs.knn.len());
    assert_eq!(args.avl_info.len_elems() as usize, bufs.avl.len());
    assert_eq!(args.meta_info.len_elems() as usize, bufs.meta.len());
    assert_eq!(args.link_info.len_elems() as usize, bufs.link.len());
}

#[test]
fn every_assembled_tree_is_empty() {
    let (args, bufs) = assemble(data_info_6x2(), 2, 4);
    for p in 0..6u32 {
        let m = meta_record(&args.meta_info, &bufs.meta, p).unwrap();
        assert_eq!(m.root, -1);
        assert_eq!(m.head_fresh, -1);
        assert_eq!(m.head_stale, -1);
        let avl_row = row_slice3(&args.avl_info, &bufs.avl, p).unwrap();
        let knn_row = row_slice2(&args.knn_info, &bufs.knn, p).unwrap();
        let decoded = wgpu_nnd::codec::decode_row(avl_row, knn_row, 2, m.root).unwrap();
        assert!(decoded.is_empty());
    }
}

#[test]
fn packing_then_splitting_reproduces_the_sub_arrays() {
    let (args, bufs) = assemble(data_info_6x2(), 2, 4);
    let (meta_offset, link_offset) = scratch_offsets(&args);
    assert_eq!(meta_offset, 48);
    assert_eq!(link_offset, 72);
    let mut avl = bufs.avl.clone();
    let mut meta = bufs.meta.clone();
    let mut link = bufs.link.clone();
    for (i, v) in avl.iter_mut().enumerate() {
        *v = i as i32;
    }
    for (i, v) in meta.iter_mut().enumerate() {
        *v = 1000 + i as i32;
    }
    for (i, v) in link.iter_mut().enumerate() {
        *v = 2000 + i as i32;
    }
    let packed = concat_scratch(&avl, &meta, &link);
    assert_eq!(packed.len(), avl.len() + meta.len() + link.len());
    let slices = split_scratch(&args, &packed).unwrap();
    assert_eq!(slices.avl, &avl[..]);
    assert_eq!(slices.meta, &meta[..]);
    assert_eq!(slices.link, &link[..]);
}

#[test]
fn splitting_a_short_region_is_rejected() {
    let (args, _bufs) = assemble(data_info_6x2(), 2, 4);
    let short = vec![0i32; 10];
    assert!(split_scratch(&args, &short).is_err());
}

#[test]
fn row_slices_match_manual_indexing() {
    let (args, bufs) = assemble(data_info_6x2(), 2, 4);
    let mut knn = bufs.knn.clone();
    for (i, v) in knn.iter_mut().enumerate() {
        *v = i as i32;
    }
    let row = row_slice2(&args.knn_info, &knn, 3).unwrap();
    assert_eq!(row, &[6, 7]);
    assert!(row_slice2(&args.knn_info, &knn, 6).is_err());
}
