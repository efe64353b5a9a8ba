//! The labeling tool's decisions: drawing boxes with the pointer, the
//! repeat and region-delete modes, and which classes the filter shows.
use crate::dataset::DynLabel;
use std::collections::HashSet;
use vstd::prelude::*;

verus! {

broadcast use vstd::std_specs::hash::group_hash_axioms;

/// How far the drawing of a box has come: nothing yet, one corner, or both
/// corners.
#[derive(Clone, Copy, Debug)]
pub enum BBoxInput<P> {
    Empty,
    Partial(P),
    Finished(P, P),
}

/// What the pointer did in one frame over the image.
#[derive(Clone, Copy, Debug)]
pub struct PointerEvent<P> {
    pub secondary_clicked: bool,
    pub secondary_down: bool,
    pub drag_started: bool,
    pub drag_released: bool,
    /// Where the pointer is, if it is over the image.
    pub pointer: Option<P>,
    /// The drag, from the corner already placed to the pointer, is too short
    /// in one direction to be meant as a box.
    pub tiny_drag: bool,
}

/// What the labeling tool does to its labels.
#[derive(Clone, Copy, Debug)]
pub enum BoxAction<P> {
    /// Remove the boxes under this point.
    RemoveAt(P),
    /// Add a box with these corners, of the current class.
    Add(P, P),
    /// Replace the boxes inside this rectangle by those of the previous image.
    RepeatInside(P, P),
    /// Delete, in the previous images, the boxes that touch this rectangle.
    DeleteTouching(P, P),
}

/// The state of box drawing.
#[derive(Clone, Copy, Debug)]
pub struct BoxDrawing<P> {
    pub bbox_input: BBoxInput<P>,
    pub repeat_mode: bool,
    pub region_delete_mode: bool,
    pub mask_needs_update: bool,
}

/// The pointer positions that a step reads are there.
pub open spec fn pointer_available<P>(s: BoxDrawing<P>, ev: PointerEvent<P>) -> bool {
    &&& ev.secondary_clicked ==> ev.pointer is Some
    &&& !ev.secondary_down ==> match s.bbox_input {
        BBoxInput::Empty => ev.drag_started ==> ev.pointer is Some,
        BBoxInput::Partial(_) => ev.drag_released ==> ev.pointer is Some,
        BBoxInput::Finished(_, _) => true,
    }
}

/// The corners as they stand after the pointer moved, before a finished box
/// is used.
pub open spec fn next_input<P>(input: BBoxInput<P>, ev: PointerEvent<P>) -> BBoxInput<P> {
    match input {
        BBoxInput::Empty => if ev.drag_started {
            BBoxInput::Partial(ev.pointer->0)
        } else {
            BBoxInput::Empty
        },
        BBoxInput::Partial(p1) => if ev.drag_released && !ev.tiny_drag {
            BBoxInput::Finished(p1, ev.pointer->0)
        } else {
            BBoxInput::Partial(p1)
        },
        BBoxInput::Finished(_, _) => BBoxInput::Empty,
    }
}

/// One frame of box drawing: the state after it and the actions it takes.
/// A right click removes the boxes under the pointer; while the right button
/// is down nothing else happens. A drag places the first corner; releasing it
/// far enough away places the second. A finished box then repeats the
/// previous image's boxes inside it (in repeat mode, which this ends), deletes
/// the boxes touching it in previous images (in region-delete mode, which
/// keeps the box finished, so the next frame adds it), or is added.
pub open spec fn pointer_step<P>(s: BoxDrawing<P>, ev: PointerEvent<P>) -> (BoxDrawing<P>, Seq<BoxAction<P>>) {
    let removed: Seq<BoxAction<P>> = if ev.secondary_clicked {
        seq![BoxAction::RemoveAt(ev.pointer->0)]
    } else {
        seq![]
    };
    let mask = s.mask_needs_update || ev.secondary_clicked;
    if ev.secondary_down {
        (BoxDrawing { mask_needs_update: mask, ..s }, removed)
    } else {
        let added_old: Seq<BoxAction<P>> = match s.bbox_input {
            BBoxInput::Finished(p1, p2) => seq![BoxAction::Add(p1, p2)],
            _ => seq![],
        };
        let mask = mask || s.bbox_input is Finished;
        let input = next_input(s.bbox_input, ev);
        match input {
            BBoxInput::Finished(p1, p2) => if s.repeat_mode {
                (
                    BoxDrawing {
                        bbox_input: BBoxInput::Empty,
                        repeat_mode: false,
                        region_delete_mode: s.region_delete_mode,
                        mask_needs_update: mask,
                    },
                    removed + added_old + seq![BoxAction::RepeatInside(p1, p2)],
                )
            } else if s.region_delete_mode {
                (
                    BoxDrawing {
                        bbox_input: input,
                        repeat_mode: s.repeat_mode,
                        region_delete_mode: s.region_delete_mode,
                        mask_needs_update: mask,
                    },
                    removed + added_old + seq![BoxAction::DeleteTouching(p1, p2)],
                )
            } else {
                (
                    BoxDrawing {
                        bbox_input: BBoxInput::Empty,
                        repeat_mode: s.repeat_mode,
                        region_delete_mode: s.region_delete_mode,
                        mask_needs_update: true,
                    },
                    removed + added_old + seq![BoxAction::Add(p1, p2)],
                )
            },
            _ => (
                BoxDrawing {
                    bbox_input: input,
                    repeat_mode: s.repeat_mode,
                    region_delete_mode: s.region_delete_mode,
                    mask_needs_update: mask,
                },
                removed + added_old,
            ),
        }
    }
}

impl<P: Copy> BoxDrawing<P> {
    pub fn new() -> (d: BoxDrawing<P>)
        ensures
            d.bbox_input is Empty,
            !d.repeat_mode,
            !d.region_delete_mode,
            !d.mask_needs_update,
    {
        BoxDrawing {
            bbox_input: BBoxInput::Empty,
            repeat_mode: false,
            region_delete_mode: false,
            mask_needs_update: false,
        }
    }

    /// One frame of box drawing (see `pointer_step`).
    pub fn handle_pointer(&mut self, ev: &PointerEvent<P>) -> (actions: Vec<BoxAction<P>>)
        requires
            pointer_available(*old(self), *ev),
        ensures
            (*final(self), actions@) == pointer_step(*old(self), *ev),
    {
        let mut actions: Vec<BoxAction<P>> = Vec::new();
        if ev.secondary_clicked {
            match ev.pointer {
                Some(p) => actions.push(BoxAction::RemoveAt(p)),
                None => {},
            }
            self.mask_needs_update = true;
        }
        if ev.secondary_down {
            assert(actions@ =~= pointer_step(*old(self), *ev).1);
            return actions;
        }
        let input = match self.bbox_input {
            BBoxInput::Empty => {
                if ev.drag_started {
                    match ev.pointer {
                        Some(p) => BBoxInput::Partial(p),
                        None => BBoxInput::Empty,
                    }
                } else {
                    BBoxInput::Empty
                }
            },
            BBoxInput::Partial(p1) => {
                if ev.drag_released {
                    match ev.pointer {
                        Some(p2) => {
                            if ev.tiny_drag {
                                BBoxInput::Partial(p1)
                            } else {
                                BBoxInput::Finished(p1, p2)
                            }
                        },
                        None => BBoxInput::Partial(p1),
                    }
                } else {
                    BBoxInput::Partial(p1)
                }
            },
            BBoxInput::Finished(p1, p2) => {
                actions.push(BoxAction::Add(p1, p2));
                self.mask_needs_update = true;
                BBoxInput::Empty
            },
        };
        self.bbox_input = input;
        match input {
            BBoxInput::Finished(p1, p2) => {
                if self.repeat_mode {
                    actions.push(BoxAction::RepeatInside(p1, p2));
                    self.repeat_mode = false;
                    self.bbox_input = BBoxInput::Empty;
                } else if self.region_delete_mode {
                    actions.push(BoxAction::DeleteTouching(p1, p2));
                } else {
                    actions.push(BoxAction::Add(p1, p2));
                    self.mask_needs_update = true;
                    self.bbox_input = BBoxInput::Empty;
                }
            },
            _ => {},
        }
        assert(actions@ =~= pointer_step(*old(self), *ev).1);
        actions
    }

    /// The repeat key turns repeat mode on or off.
    pub fn toggle_repeat_mode(&mut self)
        ensures
            final(self).repeat_mode == !old(self).repeat_mode,
            final(self).region_delete_mode == old(self).region_delete_mode,
            final(self).bbox_input == old(self).bbox_input,
            final(self).mask_needs_update == old(self).mask_needs_update,
    {
        self.repeat_mode = !self.repeat_mode;
    }

    /// The region-delete shortcut turns region-delete mode on or off, and
    /// ends repeat mode.
    pub fn toggle_region_delete_mode(&mut self)
        ensures
            !final(self).repeat_mode,
            final(self).region_delete_mode == !old(self).region_delete_mode,
            final(self).bbox_input == old(self).bbox_input,
            final(self).mask_needs_update == old(self).mask_needs_update,
    {
        self.repeat_mode = false;
        self.region_delete_mode = !self.region_delete_mode;
    }
}

/// After a frame, a box stays finished only in region-delete mode (or when
/// the right button held back a box that was already finished).
pub proof fn law_finished_box_only_in_region_delete<P>(s: BoxDrawing<P>, ev: PointerEvent<P>)
    ensures
        pointer_step(s, ev).0.bbox_input is Finished ==> s.region_delete_mode || (ev.secondary_down
            && s.bbox_input is Finished),
{
}

/// A box repeats the previous image's boxes at most once: the frame that
/// does so leaves repeat mode.
pub proof fn law_repeat_ends_repeat_mode<P>(s: BoxDrawing<P>, ev: PointerEvent<P>)
    ensures
        (exists|k: int|
            0 <= k < pointer_step(s, ev).1.len() && #[trigger] pointer_step(s, ev).1[k] is RepeatInside)
            ==> !pointer_step(s, ev).0.repeat_mode,
{
}

/// A right click removes the boxes under the pointer, whether or not the
/// button is still down in that frame: the frame's first action removes them
/// there, and the mask is drawn again. Without a right click nothing is
/// removed.
pub proof fn law_right_click_removes_under_pointer<P>(s: BoxDrawing<P>, ev: PointerEvent<P>, p: P)
    ensures
        ev.secondary_clicked && ev.pointer == Some(p) ==> {
            &&& pointer_step(s, ev).1.len() >= 1
            &&& pointer_step(s, ev).1[0] == BoxAction::RemoveAt(p)
            &&& pointer_step(s, ev).0.mask_needs_update
        },
        !ev.secondary_clicked ==> forall|k: int|
            0 <= k < pointer_step(s, ev).1.len() ==> !(#[trigger] pointer_step(s, ev).1[k] is RemoveAt),
{
}

/// While the right button is down, the frame does nothing but the removal
/// of a right click: the corners placed and the modes stay as they were.
pub proof fn law_right_button_down_holds_drawing<P>(s: BoxDrawing<P>, ev: PointerEvent<P>)
    ensures
        ev.secondary_down ==> {
            &&& pointer_step(s, ev).0.bbox_input == s.bbox_input
            &&& pointer_step(s, ev).0.repeat_mode == s.repeat_mode
            &&& pointer_step(s, ev).0.region_delete_mode == s.region_delete_mode
            &&& pointer_step(s, ev).1.len() == if ev.secondary_clicked { 1int } else { 0int }
        },
{
}

/// The items whose mark is false, in order.
pub open spec fn unmarked<T>(items: Seq<T>, marked: Seq<bool>) -> Seq<T>
    decreases items.len(),
{
    if items.len() == 0 {
        seq![]
    } else {
        unmarked(items.drop_last(), marked) + if !marked[items.len() - 1] {
            seq![items.last()]
        } else {
            seq![]
        }
    }
}

/// The items whose mark is true, in order.
pub open spec fn marked_items<T>(items: Seq<T>, marked: Seq<bool>) -> Seq<T>
    decreases items.len(),
{
    if items.len() == 0 {
        seq![]
    } else {
        marked_items(items.drop_last(), marked) + if marked[items.len() - 1] {
            seq![items.last()]
        } else {
            seq![]
        }
    }
}

/// Keeps the items that are not marked (the boxes under a removing click, or
/// touching a deleted region, are marked), in order.
pub fn retain_unmarked<T>(items: Vec<T>, marked: &Vec<bool>) -> (r: Vec<T>)
    requires
        marked@.len() == items@.len(),
    ensures
        r@ == unmarked(items@, marked@),
{
    let ghost all = items@;
    let mut rest = items;
    let mut r: Vec<T> = Vec::new();
    let n = rest.len();
    let mut k: usize = 0;
    while k < n
        invariant
            n == all.len() == marked@.len(),
            k <= n,
            rest@ == all.subrange(k as int, n as int),
            r@ == unmarked(all.subrange(0, k as int), marked@),
        decreases n - k,
    {
        let item = rest.remove(0);
        assert(all.subrange(0, k + 1).drop_last() =~= all.subrange(0, k as int));
        assert(all.subrange(0, k + 1).last() == item);
        if !marked[k] {
            r.push(item);
        }
        k = k + 1;
    }
    assert(all.subrange(0, n as int) =~= all);
    r
}

/// Keeps the marked items, in order.
fn keep_marked<T>(items: Vec<T>, marked: &Vec<bool>) -> (r: Vec<T>)
    requires
        marked@.len() == items@.len(),
    ensures
        r@ == marked_items(items@, marked@),
{
    let ghost all = items@;
    let mut rest = items;
    let mut r: Vec<T> = Vec::new();
    let n = rest.len();
    let mut k: usize = 0;
    while k < n
        invariant
            n == all.len() == marked@.len(),
            k <= n,
            rest@ == all.subrange(k as int, n as int),
            r@ == marked_items(all.subrange(0, k as int), marked@),
        decreases n - k,
    {
        let item = rest.remove(0);
        assert(all.subrange(0, k + 1).drop_last() =~= all.subrange(0, k as int));
        assert(all.subrange(0, k + 1).last() == item);
        if marked[k] {
            r.push(item);
        }
        k = k + 1;
    }
    assert(all.subrange(0, n as int) =~= all);
    r
}

/// The boxes of the current label that lie outside a rectangle, followed by
/// the boxes of the previous label that lie inside it.
pub fn repeat_inside<T>(
    current: Vec<T>,
    current_inside: &Vec<bool>,
    previous: Vec<T>,
    previous_inside: &Vec<bool>,
) -> (r: Vec<T>)
    requires
        current_inside@.len() == current@.len(),
        previous_inside@.len() == previous@.len(),
    ensures
        r@ == unmarked(current@, current_inside@) + marked_items(previous@, previous_inside@),
{
    let mut kept = retain_unmarked(current, current_inside);
    let mut repeated = keep_marked(previous, previous_inside);
    kept.append(&mut repeated);
    kept
}

/// A class key, with the filter on, shows a hidden class or hides a shown
/// one.
pub fn toggle_shown_class(shown: &mut HashSet<usize>, class: usize)
    ensures
        old(shown)@.contains(class) ==> final(shown)@ == old(shown)@.remove(class),
        !old(shown)@.contains(class) ==> final(shown)@ == old(shown)@.insert(class),
{
    if shown.contains(&class) {
        shown.remove(&class);
    } else {
        shown.insert(class);
    }
}

/// What a class key does: with the filter on, it shows or hides its class
/// (and the mask must be drawn again); with the filter off, it becomes the
/// class of the boxes drawn next. Says whether the mask must be drawn again.
pub fn apply_class_key(
    filter_on: bool,
    class: DynLabel,
    shown: &mut HashSet<usize>,
    current_class: &mut DynLabel,
) -> (mask_changed: bool)
    ensures
        mask_changed == filter_on,
        filter_on ==> *final(current_class) == *old(current_class),
        filter_on && old(shown)@.contains(class.i) ==> final(shown)@ == old(shown)@.remove(class.i),
        filter_on && !old(shown)@.contains(class.i) ==> final(shown)@ == old(shown)@.insert(class.i),
        !filter_on ==> *final(current_class) == class && final(shown)@ == old(shown)@,
{
    if filter_on {
        toggle_shown_class(shown, class.i);
        true
    } else {
        *current_class = class;
        false
    }
}

/// Toggling a class twice leaves the shown classes as they were.
pub proof fn law_toggle_twice(shown: Set<usize>, class: usize)
    ensures
        ({
            let once = if shown.contains(class) {
                shown.remove(class)
            } else {
                shown.insert(class)
            };
            let twice = if once.contains(class) {
                once.remove(class)
            } else {
                once.insert(class)
            };
            twice == shown
        }),
{
    let once = if shown.contains(class) {
        shown.remove(class)
    } else {
        shown.insert(class)
    };
    if shown.contains(class) {
        assert(once.insert(class) =~= shown);
    } else {
        assert(once.remove(class) =~= shown);
    }
}

/// Every item is either kept or repeated away, never both: the kept and the
/// removed items together are all the items.
pub proof fn law_retain_splits_items<T>(items: Seq<T>, marked: Seq<bool>)
    requires
        marked.len() == items.len(),
    ensures
        unmarked(items, marked).len() + marked_items(items, marked).len() == items.len(),
    decreases items.len(),
{
    if items.len() > 0 {
        law_retain_splits_items(items.drop_last(), marked.drop_last());
        lemma_marks_prefix(items.drop_last(), marked);
    }
}

proof fn lemma_marks_prefix<T>(items: Seq<T>, marked: Seq<bool>)
    requires
        items.len() < marked.len(),
    ensures
        unmarked(items, marked) == unmarked(items, marked.drop_last()),
        marked_items(items, marked) == marked_items(items, marked.drop_last()),
    decreases items.len(),
{
    if items.len() > 0 {
        lemma_marks_prefix(items.drop_last(), marked);
    }
}

} // verus!
