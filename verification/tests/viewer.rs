use spack::viewer::{handle_input, next_image_index, stage_shown, Key, Selection, Stage};

fn at(selected_image: usize, stage: Stage) -> Selection {
    Selection { selected_image, stage }
}

#[test]
fn the_left_arrow_steps_forward_and_wraps() {
    assert_eq!(handle_input(at(0, Stage::LoG), 3, Key::LeftArrow), at(1, Stage::LoG));
    assert_eq!(handle_input(at(1, Stage::LoG), 3, Key::LeftArrow), at(2, Stage::LoG));
    assert_eq!(handle_input(at(2, Stage::LoG), 3, Key::LeftArrow), at(0, Stage::LoG));
    assert_eq!(handle_input(at(0, Stage::Raw), 1, Key::LeftArrow), at(0, Stage::Raw));
}

#[test]
fn the_right_arrow_steps_back_and_wraps() {
    assert_eq!(handle_input(at(2, Stage::Dilate), 3, Key::RightArrow), at(1, Stage::Dilate));
    assert_eq!(handle_input(at(1, Stage::Dilate), 3, Key::RightArrow), at(0, Stage::Dilate));
    assert_eq!(handle_input(at(0, Stage::Dilate), 3, Key::RightArrow), at(2, Stage::Dilate));
    assert_eq!(handle_input(at(0, Stage::Raw), 1, Key::RightArrow), at(0, Stage::Raw));
}

#[test]
fn the_digits_choose_the_stage() {
    let start = at(4, Stage::Raw);
    assert_eq!(handle_input(start, 5, Key::Num1), at(4, Stage::Raw));
    assert_eq!(handle_input(start, 5, Key::Num2), at(4, Stage::LoG));
    assert_eq!(handle_input(start, 5, Key::Num3), at(4, Stage::Dilate));
    assert_eq!(handle_input(start, 5, Key::Num4), at(4, Stage::LocalMax));
    assert_eq!(handle_input(start, 5, Key::Num5), at(4, Stage::AlignTriangles));
}

#[test]
fn other_keys_change_nothing() {
    assert_eq!(handle_input(at(3, Stage::LocalMax), 5, Key::Other), at(3, Stage::LocalMax));
    assert_eq!(handle_input(at(3, Stage::LocalMax), 0, Key::Other), at(3, Stage::LocalMax));
    assert_eq!(handle_input(at(3, Stage::LocalMax), 0, Key::Num2), at(3, Stage::LoG));
}

#[test]
fn the_image_before_the_first_is_the_last() {
    assert_eq!(next_image_index(0, 5), 4);
    assert_eq!(next_image_index(4, 5), 3);
    assert_eq!(next_image_index(1, 5), 0);
    assert_eq!(next_image_index(0, 1), 0);
}

#[test]
fn triangles_are_drawn_over_the_raw_image() {
    assert_eq!(stage_shown(Stage::AlignTriangles, true), Stage::Raw);
    assert_eq!(stage_shown(Stage::Raw, true), Stage::Raw);
    assert_eq!(stage_shown(Stage::LoG, true), Stage::LoG);
    assert_eq!(stage_shown(Stage::Dilate, true), Stage::Dilate);
    assert_eq!(stage_shown(Stage::LocalMax, true), Stage::LocalMax);
    for stage in [Stage::Raw, Stage::LoG, Stage::Dilate, Stage::LocalMax, Stage::AlignTriangles] {
        assert_eq!(stage_shown(stage, false), Stage::Raw);
    }
}
