use pixel_widgets::draw::Command;
use pixel_widgets::plan::{plan_draw, PrimShape};

#[test]
fn adjacent_shapes_share_a_command() {
    let prims = vec![PrimShape::Colored { count: 6 }, PrimShape::Colored { count: 3 }];
    let (commands, offsets, total) = plan_draw(&prims, (0, true));
    assert_eq!(commands, vec![Command::Colored { offset: 0, count: 9 }]);
    assert_eq!(offsets, vec![Some(0), Some(6)]);
    assert_eq!(total, 9);
}

#[test]
fn textures_and_clips_split_commands() {
    let prims = vec![
        PrimShape::Textured { texture: 1, count: 6 },
        PrimShape::Textured { texture: 2, count: 6 },
        PrimShape::PushClip { scissor: 5, valid: true },
        PrimShape::Colored { count: 3 },
        PrimShape::PopClip,
    ];
    let (commands, offsets, total) = plan_draw(&prims, (0, true));
    assert_eq!(
        commands,
        vec![
            Command::Textured { texture: 1, offset: 0, count: 6 },
            Command::Textured { texture: 2, offset: 6, count: 6 },
            Command::Clip { scissor: 5 },
            Command::Colored { offset: 12, count: 3 },
            Command::Clip { scissor: 0 },
        ]
    );
    assert_eq!(offsets, vec![Some(0), Some(6), None, Some(12), None]);
    assert_eq!(total, 15);
}

#[test]
fn empty_clip_stops_drawing_until_popped() {
    let prims = vec![
        PrimShape::PushClip { scissor: 3, valid: false },
        PrimShape::Colored { count: 6 },
        PrimShape::PopClip,
        PrimShape::Colored { count: 6 },
    ];
    let (commands, offsets, total) = plan_draw(&prims, (0, true));
    assert_eq!(commands, vec![Command::Clip { scissor: 0 }, Command::Colored { offset: 0, count: 6 }]);
    assert_eq!(offsets, vec![None, None, None, Some(0)]);
    assert_eq!(total, 6);
}

#[test]
fn upper_layers_come_after_lower_ones() {
    let prims = vec![
        PrimShape::Colored { count: 6 },
        PrimShape::LayerUp,
        PrimShape::Colored { count: 3 },
        PrimShape::LayerDown,
        PrimShape::Colored { count: 6 },
    ];
    let (commands, offsets, total) = plan_draw(&prims, (0, true));
    assert_eq!(
        commands,
        vec![Command::Colored { offset: 0, count: 12 }, Command::Colored { offset: 12, count: 3 }]
    );
    assert_eq!(offsets, vec![Some(0), None, Some(12), None, Some(6)]);
    assert_eq!(total, 15);
}
