//! The viewer's state between events: the loaded snapshot, the selected entry
//! and its stroke, and the selected keyframe. The window reports events to it
//! and redraws from it.
use vstd::prelude::*;
use crate::data::{entry_range, parse_stroke, CfgData, Files};
use crate::strokes::{outcome_of, record_outcome, RecordOutcome, Stroke, StrokeError};

verus! {

/// The keyframe selected at start: the ideal timing.
pub const IDEAL_TIMING: usize = 2;

/// What reading the entry at index `i` gives.
pub open spec fn entry_outcome(contents: Seq<u8>, offsets: Seq<i64>, i: int) -> RecordOutcome {
    let next = if i + 1 < offsets.len() {
        Some(offsets[i + 1])
    } else {
        None
    };
    match entry_range(contents.len() as int, offsets[i], next) {
        None => RecordOutcome::OutOfRange,
        Some((start, end)) => record_outcome(contents.subrange(start, end)),
    }
}

/// Which of the two paths an edit changed.
#[derive(Clone, Copy, Debug, PartialEq, Eq, Structural)]
pub struct FileChanges {
    pub list_changed: bool,
    pub cfg_changed: bool,
}

pub struct Viewer {
    pub files: Files,
    /// The raw offsets of the loaded entries, in list order.
    pub cfg_item_offsets: Vec<i64>,
    pub cfg_contents: Vec<u8>,
    pub selection: Option<usize>,
    /// The stroke of the selected entry; an entry that cannot be read keeps
    /// its error here and leaves the rest of the list usable.
    pub selected_stroke: Option<Result<Option<Stroke>, StrokeError>>,
    pub selected_timing: usize,
}

impl Viewer {
    /// The selection names a loaded entry, the stroke is the one read for it,
    /// and the keyframe is one of five.
    pub open spec fn wf(&self) -> bool {
        &&& self.selected_timing < 5
        &&& match self.selection {
            None => self.selected_stroke is None,
            Some(i) => i < self.cfg_item_offsets@.len() && (self.selected_stroke matches Some(r)
                && outcome_of(r) == entry_outcome(self.cfg_contents@, self.cfg_item_offsets@, i as int)),
        }
    }

    /// A viewer with no files and nothing loaded.
    pub fn new() -> (v: Viewer)
        ensures
            v.wf(),
            v.files.cfg_file@.len() == 0,
            v.files.list_file@.len() == 0,
            v.cfg_item_offsets@.len() == 0,
            v.cfg_contents@.len() == 0,
            v.selection is None,
            v.selected_timing == IDEAL_TIMING,
    {
        Viewer {
            files: Files { cfg_file: String::new(), list_file: String::new() },
            cfg_item_offsets: Vec::new(),
            cfg_contents: Vec::new(),
            selection: None,
            selected_stroke: None,
            selected_timing: IDEAL_TIMING,
        }
    }

    /// Takes the paths typed in; says which of them changed, each of which
    /// must be watched anew, and a change of either asks for a reload.
    pub fn change_files(&mut self, files: Files) -> (r: FileChanges)
        requires
            old(self).wf(),
        ensures
            final(self).wf(),
            r.list_changed == (old(self).files.list_file@ != files.list_file@),
            r.cfg_changed == (old(self).files.cfg_file@ != files.cfg_file@),
            final(self).files.list_file@ == files.list_file@,
            final(self).files.cfg_file@ == files.cfg_file@,
            final(self).cfg_item_offsets@ == old(self).cfg_item_offsets@,
            final(self).cfg_contents@ == old(self).cfg_contents@,
            final(self).selection == old(self).selection,
            final(self).selected_stroke == old(self).selected_stroke,
            final(self).selected_timing == old(self).selected_timing,
    {
        let list_changed = files.list_file != self.files.list_file;
        let cfg_changed = files.cfg_file != self.files.cfg_file;
        self.files = files;
        FileChanges { list_changed, cfg_changed }
    }

    /// Selects the entry at index `selection` (or none) and reads its stroke;
    /// an index past the list selects nothing.
    pub fn select(&mut self, selection: Option<usize>)
        requires
            old(self).wf(),
        ensures
            final(self).wf(),
            final(self).selection == (match selection {
                Some(i) => if i < old(self).cfg_item_offsets@.len() {
                    Some(i)
                } else {
                    None
                },
                None => None,
            }),
            final(self).files == old(self).files,
            final(self).cfg_item_offsets@ == old(self).cfg_item_offsets@,
            final(self).cfg_contents@ == old(self).cfg_contents@,
            final(self).selected_timing == old(self).selected_timing,
    {
        match selection {
            Some(i) => {
                if i < self.cfg_item_offsets.len() {
                    let next = if i + 1 < self.cfg_item_offsets.len() {
                        Some(self.cfg_item_offsets[i + 1])
                    } else {
                        None
                    };
                    let stroke = parse_stroke(self.cfg_contents.as_slice(), self.cfg_item_offsets[i], next);
                    self.selection = Some(i);
                    self.selected_stroke = Some(stroke);
                } else {
                    self.selection = None;
                    self.selected_stroke = None;
                }
            },
            None => {
                self.selection = None;
                self.selected_stroke = None;
            },
        }
    }

    /// Replaces the snapshot with a new load. The selection stays where it
    /// still names an entry, and its stroke is read again.
    pub fn load(&mut self, data: CfgData)
        requires
            old(self).wf(),
        ensures
            final(self).wf(),
            final(self).cfg_contents@ == data.cfg_contents@,
            final(self).cfg_item_offsets@.len() == data.cfg_items@.len(),
            forall|i: int| 0 <= i < data.cfg_items@.len() ==> #[trigger] final(self).cfg_item_offsets@[i] == data.cfg_items@[i].1,
            final(self).selection == (match old(self).selection {
                Some(i) => if i < data.cfg_items@.len() {
                    Some(i)
                } else {
                    None
                },
                None => None,
            }),
            final(self).files == old(self).files,
            final(self).selected_timing == old(self).selected_timing,
    {
        let mut offsets: Vec<i64> = Vec::new();
        let mut i: usize = 0;
        while i < data.cfg_items.len()
            invariant
                i <= data.cfg_items@.len(),
                offsets@.len() == i,
                forall|j: int| 0 <= j < i ==> #[trigger] offsets@[j] == data.cfg_items@[j].1,
            decreases data.cfg_items@.len() - i,
        {
            offsets.push(data.cfg_items[i].1);
            i = i + 1;
        }
        let previous = self.selection;
        self.cfg_item_offsets = offsets;
        self.cfg_contents = data.cfg_contents;
        self.selection = None;
        self.selected_stroke = None;
        self.select(previous);
    }

    /// Drops the snapshot after a load that failed: nothing is listed,
    /// selected or drawn until the next load.
    pub fn clear(&mut self)
        requires
            old(self).wf(),
        ensures
            final(self).wf(),
            final(self).cfg_item_offsets@.len() == 0,
            final(self).cfg_contents@.len() == 0,
            final(self).selection is None,
            final(self).selected_stroke is None,
            final(self).files == old(self).files,
            final(self).selected_timing == old(self).selected_timing,
    {
        self.cfg_item_offsets = Vec::new();
        self.cfg_contents = Vec::new();
        self.selection = None;
        self.selected_stroke = None;
    }

    /// Selects keyframe `timing`; an index past the fifth keyframe is ignored.
    pub fn select_timing(&mut self, timing: usize)
        requires
            old(self).wf(),
        ensures
            final(self).wf(),
            final(self).selected_timing == (if timing < 5 {
                timing
            } else {
                old(self).selected_timing
            }),
            final(self).files == old(self).files,
            final(self).cfg_item_offsets@ == old(self).cfg_item_offsets@,
            final(self).cfg_contents@ == old(self).cfg_contents@,
            final(self).selection == old(self).selection,
            final(self).selected_stroke == old(self).selected_stroke,
    {
        if timing < 5 {
            self.selected_timing = timing;
        }
    }
}

} // verus!
