use stroke_preview::data::{CfgData, Files, FIRST_RECORD, HEADER_LEN};
use stroke_preview::strokes::StrokeError;
use stroke_preview::viewer::{FileChanges, Viewer, IDEAL_TIMING};

fn data(offsets: &[i64], contents: Vec<u8>) -> CfgData {
    CfgData {
        cfg_items: offsets.iter().map(|&o| (format!("e{}", o), o)).collect(),
        cfg_contents: contents,
    }
}

fn raw(p: i64) -> i64 {
    p + FIRST_RECORD - HEADER_LEN
}

#[test]
fn new_viewer_is_empty_with_ideal_timing() {
    let v = Viewer::new();
    assert_eq!(v.selected_timing, IDEAL_TIMING);
    assert!(v.selection.is_none() && v.selected_stroke.is_none());
    assert!(v.files.cfg_file.is_empty() && v.files.list_file.is_empty());
}

#[test]
fn changing_files_reports_which_paths_changed() {
    let mut v = Viewer::new();
    let r = v.change_files(Files { cfg_file: "AI.cfg".to_string(), list_file: "List.txt".to_string() });
    assert_eq!(r, FileChanges { list_changed: true, cfg_changed: true });
    let r = v.change_files(Files { cfg_file: "AI.cfg".to_string(), list_file: "Other.txt".to_string() });
    assert_eq!(r, FileChanges { list_changed: true, cfg_changed: false });
    let r = v.change_files(Files { cfg_file: "AI.cfg".to_string(), list_file: "Other.txt".to_string() });
    assert_eq!(r, FileChanges { list_changed: false, cfg_changed: false });
    assert_eq!(v.files.list_file, "Other.txt");
}

#[test]
fn selection_reads_the_entry_and_keeps_errors_local() {
    let mut v = Viewer::new();
    v.load(data(&[raw(0), raw(5), raw(50)], b"; nothing here".to_vec()));
    assert_eq!(v.cfg_item_offsets, vec![raw(0), raw(5), raw(50)]);
    v.select(Some(0));
    assert_eq!(v.selection, Some(0));
    assert_eq!(v.selected_stroke, Some(Ok(None)));
    v.select(Some(2));
    assert_eq!(v.selection, Some(2));
    assert_eq!(v.selected_stroke, Some(Err(StrokeError::OutOfRange)));
    v.select(Some(3));
    assert_eq!(v.selection, None);
    assert_eq!(v.selected_stroke, None);
}

#[test]
fn reload_keeps_a_selection_that_is_still_valid() {
    let mut v = Viewer::new();
    v.load(data(&[raw(0), raw(5)], vec![b'a'; 10]));
    v.select(Some(1));
    v.load(data(&[raw(0), raw(2), raw(4)], vec![b'b'; 5]));
    assert_eq!(v.selection, Some(1));
    assert_eq!(v.selected_stroke, Some(Ok(None)));
    assert_eq!(v.cfg_contents, vec![b'b'; 5]);
    v.load(data(&[raw(0)], vec![]));
    assert_eq!(v.selection, None);
    assert_eq!(v.selected_stroke, None);
}

#[test]
fn timing_selection_ignores_indices_past_the_fifth() {
    let mut v = Viewer::new();
    v.select_timing(4);
    assert_eq!(v.selected_timing, 4);
    v.select_timing(5);
    assert_eq!(v.selected_timing, 4);
    v.select_timing(0);
    assert_eq!(v.selected_timing, 0);
}

#[test]
fn clearing_drops_the_snapshot_and_selection() {
    let mut v = Viewer::new();
    v.load(data(&[raw(0)], vec![b'a'; 4]));
    v.select(Some(0));
    v.select_timing(1);
    v.clear();
    assert!(v.cfg_item_offsets.is_empty() && v.cfg_contents.is_empty());
    assert_eq!(v.selection, None);
    assert_eq!(v.selected_stroke, None);
    assert_eq!(v.selected_timing, 1);
}
