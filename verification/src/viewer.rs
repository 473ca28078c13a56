use vstd::prelude::*;

verus! {

/// Which stage of feature detection is shown.
#[derive(Clone, Copy, Debug, PartialEq, Eq, Hash, Structural)]
pub enum Stage {
    Raw,
    LoG,
    Dilate,
    LocalMax,
    AlignTriangles,
}

/// A key that the viewer knows, or any other.
#[derive(Clone, Copy, Debug, PartialEq, Eq, Structural)]
pub enum Key {
    LeftArrow,
    RightArrow,
    Num1,
    Num2,
    Num3,
    Num4,
    Num5,
    Other,
}

/// What the viewer shows: one of the images, at one stage.
#[derive(Clone, Copy, Debug, PartialEq, Eq, Structural)]
pub struct Selection {
    pub selected_image: usize,
    pub stage: Stage,
}

/// The place before `selected` among `count` images, the last one before
/// the first.
pub open spec fn index_before(selected: usize, count: usize) -> int {
    if selected == 0 {
        count - 1
    } else {
        selected - 1
    }
}

/// The place after `selected` among `count` images, the first one after the
/// last.
pub open spec fn index_after(selected: usize, count: usize) -> int {
    (selected + 1) % (count as int)
}

/// What is shown after a key was pressed.
pub open spec fn after_key(selection: Selection, count: usize, key: Key) -> Selection {
    match key {
        Key::LeftArrow => Selection {
            selected_image: index_after(selection.selected_image, count) as usize,
            stage: selection.stage,
        },
        Key::RightArrow => Selection {
            selected_image: index_before(selection.selected_image, count) as usize,
            stage: selection.stage,
        },
        Key::Num1 => Selection { selected_image: selection.selected_image, stage: Stage::Raw },
        Key::Num2 => Selection { selected_image: selection.selected_image, stage: Stage::LoG },
        Key::Num3 => Selection { selected_image: selection.selected_image, stage: Stage::Dilate },
        Key::Num4 => Selection { selected_image: selection.selected_image, stage: Stage::LocalMax },
        Key::Num5 => Selection {
            selected_image: selection.selected_image,
            stage: Stage::AlignTriangles,
        },
        Key::Other => selection,
    }
}

/// The image that is compared with the selected one: the one before it, the
/// last one for the first.
pub fn next_image_index(selected: usize, count: usize) -> (index: usize)
    requires
        count > 0,
    ensures
        index == index_before(selected, count),
        selected < count ==> index < count,
{
    if selected == 0 {
        count - 1
    } else {
        selected - 1
    }
}

/// What is shown after a key was pressed: the arrows step through the
/// images, the digits choose the stage, any other key changes nothing.
pub fn handle_input(selection: Selection, count: usize, key: Key) -> (next: Selection)
    requires
        key == Key::LeftArrow ==> count > 0 && selection.selected_image < usize::MAX,
        key == Key::RightArrow ==> count > 0,
    ensures
        next == after_key(selection, count, key),
        selection.selected_image < count ==> next.selected_image < count,
{
    match key {
        Key::LeftArrow => Selection {
            selected_image: (selection.selected_image + 1) % count,
            stage: selection.stage,
        },
        Key::RightArrow => Selection {
            selected_image: next_image_index(selection.selected_image, count),
            stage: selection.stage,
        },
        Key::Num1 => Selection { selected_image: selection.selected_image, stage: Stage::Raw },
        Key::Num2 => Selection { selected_image: selection.selected_image, stage: Stage::LoG },
        Key::Num3 => Selection { selected_image: selection.selected_image, stage: Stage::Dilate },
        Key::Num4 => Selection { selected_image: selection.selected_image, stage: Stage::LocalMax },
        Key::Num5 => Selection {
            selected_image: selection.selected_image,
            stage: Stage::AlignTriangles,
        },
        Key::Other => selection,
    }
}

/// The stage whose raster is drawn: the chosen one, but the raw image while
/// triangles are compared and where the selected image was not processed.
pub fn stage_shown(chosen: Stage, processed: bool) -> (stage: Stage)
    ensures
        stage == if !processed || chosen == Stage::AlignTriangles {
            Stage::Raw
        } else {
            chosen
        },
{
    if !processed {
        Stage::Raw
    } else {
        match chosen {
            Stage::AlignTriangles => Stage::Raw,
            other => other,
        }
    }
}

} // verus!
