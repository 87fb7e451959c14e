//! The plot's view state: the bounds on screen, the history that Back
//! restores, and what the axis-range editor last did. View bounds are
//! session-local and never alter the analysis cohort. Reading bounds into
//! the editor and parsing its text are floating point and stay with the
//! front end; the state here is generic over the bounds it holds.
use vstd::prelude::*;

verus! {

/// Back restores at most this many earlier views.
pub const MAX_ZOOM_HISTORY: usize = 32;

/// The editor's Min/Max text for X and Y, whether it was filled from a
/// view, and the message of its last rejected range.
pub struct AxisRangeEditor {
    pub values: [[String; 2]; 2],
    pub initialized: bool,
    pub error: Option<String>,
}

/// An editor with empty fields, not filled from a view, and no error.
pub open spec fn editor_cleared(e: AxisRangeEditor) -> bool {
    &&& forall|i: int, j: int| 0 <= i < 2 && 0 <= j < 2 ==> (#[trigger] e.values@[i]@[j])@ == Seq::<char>::empty()
    &&& !e.initialized
    &&& e.error is None
}

impl AxisRangeEditor {
    pub fn new() -> (e: Self)
        ensures
            editor_cleared(e),
    {
        let x: [String; 2] = [String::new(), String::new()];
        let y: [String; 2] = [String::new(), String::new()];
        let values: [[String; 2]; 2] = [x, y];
        let e = AxisRangeEditor { values, initialized: false, error: None };
        assert(e.values@[0] == x && e.values@[1] == y);
        assert(x@[0]@ == Seq::<char>::empty() && x@[1]@ == Seq::<char>::empty());
        assert(y@[0]@ == Seq::<char>::empty() && y@[1]@ == Seq::<char>::empty());
        e
    }
}

impl Default for AxisRangeEditor {
    fn default() -> (e: Self)
        ensures
            editor_cleared(e),
    {
        AxisRangeEditor::new()
    }
}

/// The bounds on screen, the earlier views that Back restores, whether the
/// plot fits its data, the bounds it was last told to show, and the editor.
pub struct SelectionState<B> {
    pub current_bounds: Option<B>,
    pub zoom_history: Vec<B>,
    pub auto_bounds: bool,
    pub bounds_command: Option<B>,
    pub axis_range: AxisRangeEditor,
}

/// The history once the view on screen is remembered: nothing without a
/// view; otherwise the view is appended, and the oldest entry leaves when
/// the history is full.
pub open spec fn remembered<B>(h: Seq<B>, current: Option<B>) -> Seq<B> {
    match current {
        Some(b) => (if h.len() == MAX_ZOOM_HISTORY { h.skip(1) } else { h }).push(b),
        None => h,
    }
}

/// Remembering a view never lets the history grow past its bound.
pub proof fn law_history_stays_bounded<B>(h: Seq<B>, current: Option<B>)
    requires
        h.len() <= MAX_ZOOM_HISTORY,
    ensures
        remembered(h, current).len() <= MAX_ZOOM_HISTORY,
{
}

impl<B: Copy> SelectionState<B> {
    /// Pushes the view on screen onto the history, dropping the oldest
    /// entry when 32 are held.
    pub fn remember_view(&mut self)
        ensures
            final(self).zoom_history@ == remembered(old(self).zoom_history@, old(self).current_bounds),
            final(self).current_bounds == old(self).current_bounds,
            final(self).auto_bounds == old(self).auto_bounds,
            final(self).bounds_command == old(self).bounds_command,
            final(self).axis_range == old(self).axis_range,
    {
        if let Some(bounds) = self.current_bounds {
            if self.zoom_history.len() == MAX_ZOOM_HISTORY {
                self.zoom_history.remove(0);
            }
            self.zoom_history.push(bounds);
        }
    }

    /// Applies the range the editor's text was parsed into against the view
    /// on screen: with no view nothing happens; an accepted range is shown
    /// after the view is remembered and stops the plot fitting its data; a
    /// rejected one only records its message.
    pub fn apply_axis_range(&mut self, parsed: Result<B, String>)
        ensures
            match old(self).current_bounds {
                None => *final(self) == *old(self),
                Some(_) => match parsed {
                    Ok(b) => {
                        &&& final(self).zoom_history@ == remembered(old(self).zoom_history@, old(self).current_bounds)
                        &&& final(self).current_bounds == old(self).current_bounds
                        &&& !final(self).auto_bounds
                        &&& final(self).bounds_command == Some(b)
                        &&& final(self).axis_range.values == old(self).axis_range.values
                        &&& final(self).axis_range.initialized == old(self).axis_range.initialized
                        &&& final(self).axis_range.error is None
                    },
                    Err(m) => {
                        &&& final(self).zoom_history@ == old(self).zoom_history@
                        &&& final(self).current_bounds == old(self).current_bounds
                        &&& final(self).auto_bounds == old(self).auto_bounds
                        &&& final(self).bounds_command == old(self).bounds_command
                        &&& final(self).axis_range.values == old(self).axis_range.values
                        &&& final(self).axis_range.initialized == old(self).axis_range.initialized
                        &&& final(self).axis_range.error == Some(m)
                    },
                },
            },
    {
        if self.current_bounds.is_none() {
            return;
        }
        match parsed {
            Ok(bounds) => {
                self.remember_view();
                self.auto_bounds = false;
                self.bounds_command = Some(bounds);
                self.axis_range.error = None;
            },
            Err(error) => {
                self.axis_range.error = Some(error);
            },
        }
    }

    /// Remembers the view, then lets the plot fit its data again and
    /// clears the editor.
    pub fn fit_axis_ranges(&mut self)
        ensures
            final(self).zoom_history@ == remembered(old(self).zoom_history@, old(self).current_bounds),
            final(self).current_bounds == old(self).current_bounds,
            final(self).auto_bounds,
            final(self).bounds_command is None,
            editor_cleared(final(self).axis_range),
    {
        self.remember_view();
        self.bounds_command = None;
        self.auto_bounds = true;
        self.axis_range = AxisRangeEditor::new();
    }
}

} // verus!
