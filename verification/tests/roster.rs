use wgpu_nnd::descriptor::WgslArray3Info;
use wgpu_nnd::render::trace;
use wgpu_nnd::render::trace_path;
use wgpu_nnd::roster::head;
use wgpu_nnd::roster::meta_record;
use wgpu_nnd::roster::walk_roster;
use wgpu_nnd::roster::WalkEnd;
use wgpu_nnd::descriptor::WgslArray2Info;

fn link_info() -> WgslArray3Info {
    WgslArray3Info {
        offset: 0,
        rows: 2,
        cols: 2,
        voxs: 2,
        row_strides: 2,
        col_strides: 2,
        vox_strides: 1,
    }
}

#[test]
fn a_two_slot_list_walks_to_its_end() {
    // Slots: (next: 1, payload: 7), (next: -1, payload: 9); head 0.
    let links = [1, 7, -1, 9];
    let (path, end) = walk_roster(&links, 0);
    assert_eq!(path, vec![0, 1]);
    assert_eq!(end, WalkEnd::End);
}

#[test]
fn a_cycled_list_is_reported_as_a_loop() {
    // The same roster with slot 1's next rewritten to 0.
    let links = [1, 7, 0, 9];
    let (path, end) = walk_roster(&links, 0);
    assert_eq!(path, vec![0, 1]);
    assert_eq!(end, WalkEnd::Loop);
}

#[test]
fn an_empty_head_ends_immediately() {
    let links = [1, 7, -1, 9];
    let (path, end) = walk_roster(&links, -1);
    assert!(path.is_empty());
    assert_eq!(end, WalkEnd::End);
}

#[test]
fn an_out_of_range_link_is_reported() {
    let links = [9, 7, -1, 9];
    let (path, end) = walk_roster(&links, 0);
    assert_eq!(path, vec![0]);
    assert_eq!(end, WalkEnd::Oob);
    let (path2, end2) = walk_roster(&links, 5);
    assert!(path2.is_empty());
    assert_eq!(end2, WalkEnd::Oob);
}

#[test]
fn walks_never_exceed_the_pool_size() {
    // Every slot points at the next, the last one back at the first.
    let (path, end) = walk_roster(&[1, 0, 2, 0, 3, 0, 0, 0], 0);
    assert_eq!(path, vec![0, 1, 2, 3]);
    assert_eq!(end, WalkEnd::Loop);
    let links = [2, 0, 4, 0, 6, 0, 0, 0];
    let (path2, end2) = trace_path(&links, 0);
    assert!(path2.len() <= links.len());
    assert_eq!(end2, WalkEnd::Loop);
}

#[test]
fn trace_renders_a_clean_walk_to_end() {
    let links = [2, 7, -1, 9];
    let s = trace(&link_info(), 0, &links);
    assert_eq!(s, "r0c0v0 -> r1c0v0 -> end");
}

#[test]
fn trace_renders_a_rewritten_cycle_as_loop() {
    let links = [2, 7, 0, 9];
    let s = trace(&link_info(), 0, &links);
    assert_eq!(s, "r0c0v0 -> r1c0v0 -> loop");
}

#[test]
fn trace_reports_an_index_outside_the_region() {
    let links = [2, 7, -1, 9];
    assert_eq!(trace(&link_info(), 17, &links), "oob");
    assert_eq!(trace(&link_info(), -1, &links), "end");
}

#[test]
fn meta_record_and_heads_read_the_right_columns() {
    let meta_info = WgslArray2Info { offset: 0, rows: 2, cols: 4, row_strides: 4, col_strides: 1 };
    let meta = [5, 0, 1, 2, 6, 0, 3, -1];
    let m = meta_record(&meta_info, &meta, 1).unwrap();
    assert_eq!(m.root, 6);
    assert_eq!(m.head_fresh, 3);
    assert_eq!(m.head_stale, -1);
    assert_eq!(head(&meta_info, &meta, 0, 0), Ok(1));
    assert_eq!(head(&meta_info, &meta, 0, 1), Ok(2));
    assert!(head(&meta_info, &meta, 0, 2).is_err());
    assert!(head(&meta_info, &meta, 2, 0).is_err());
}
