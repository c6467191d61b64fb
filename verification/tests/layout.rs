use tetris_graphics::batch::shape_layout;
use tetris_graphics::layout::{AttribPointer, Layout, LayoutType, OpenGLType};

#[test]
fn empty_layout_has_no_stride() {
    let layout = Layout::new();
    assert_eq!(layout.stride, 0);
    assert!(layout.types.is_empty());
    assert!(layout.apply().is_empty());
}

#[test]
fn stride_adds_four_bytes_for_floats_and_integers_and_one_for_bytes() {
    let mut layout = Layout::new();
    layout.addf(3);
    assert_eq!(layout.stride, 12);
    layout.addi(2);
    assert_eq!(layout.stride, 20);
    layout.addc(4);
    assert_eq!(layout.stride, 24);
    assert_eq!(
        layout.types,
        vec![
            LayoutType { typeenum: OpenGLType::Float, count: 3 },
            LayoutType { typeenum: OpenGLType::Integer, count: 2 },
            LayoutType { typeenum: OpenGLType::Char, count: 4 },
        ]
    );
}

#[test]
fn calls_chain() {
    let mut layout = Layout::new();
    layout.addf(2).addf(2).addf(4);
    assert_eq!(layout.stride, 32);
    assert_eq!(layout.types.len(), 3);
}

#[test]
fn apply_numbers_the_attributes_and_adds_up_the_offsets() {
    let mut layout = Layout::new();
    layout.addf(2).addi(1).addc(3).addf(4);
    assert_eq!(layout.stride, 31);
    assert_eq!(
        layout.apply(),
        vec![
            AttribPointer { index: 0, count: 2, typeenum: OpenGLType::Float, stride: 31, offset: 0 },
            AttribPointer { index: 1, count: 1, typeenum: OpenGLType::Integer, stride: 31, offset: 8 },
            AttribPointer { index: 2, count: 3, typeenum: OpenGLType::Char, stride: 31, offset: 12 },
            AttribPointer { index: 3, count: 4, typeenum: OpenGLType::Float, stride: 31, offset: 15 },
        ]
    );
}

#[test]
fn largest_attribute_counts() {
    let mut layout = Layout::new();
    layout.addf(255).addc(255).addf(0);
    assert_eq!(layout.stride, 1020 + 255);
    let pointers = layout.apply();
    assert_eq!(pointers[1].offset, 1020);
    assert_eq!(pointers[2].offset, 1275);
    assert_eq!(pointers[2].count, 0);
}

#[test]
fn shape_layout_is_position_texcoord_colour() {
    let layout = shape_layout();
    assert_eq!(layout.stride, 32);
    assert_eq!(
        layout.apply(),
        vec![
            AttribPointer { index: 0, count: 2, typeenum: OpenGLType::Float, stride: 32, offset: 0 },
            AttribPointer { index: 1, count: 2, typeenum: OpenGLType::Float, stride: 32, offset: 8 },
            AttribPointer { index: 2, count: 4, typeenum: OpenGLType::Float, stride: 32, offset: 16 },
        ]
    );
}
