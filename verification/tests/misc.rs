use pixel_widgets::component_node::DetectMut;
use pixel_widgets::event::{Key, Modifiers};
use pixel_widgets::layout::{Align, Direction, TextWrap};

#[test]
fn modifier_sets() {
    let n = Modifiers::none();
    assert!(!n.ctrl && !n.alt && !n.shift && !n.logo);
    let c = Modifiers::ctrl();
    assert!(c.ctrl && !c.alt && !c.shift && !c.logo);
    let a = Modifiers::alt();
    assert!(!a.ctrl && a.alt && !a.shift && !a.logo);
    let s = Modifiers::shift();
    assert!(!s.ctrl && !s.alt && s.shift && !s.logo);
    let l = Modifiers::logo();
    assert!(!l.ctrl && !l.alt && !l.shift && l.logo);
    assert_eq!(c, Modifiers { ctrl: true, alt: false, shift: false, logo: false });
}

#[test]
fn keys_compare() {
    assert_eq!(Key::A, Key::A);
    assert_ne!(Key::A, Key::B);
}

#[test]
fn layout_values_compare() {
    assert_eq!(Align::Center, Align::Center);
    assert_ne!(Direction::LeftToRight, Direction::RightToLeft);
    assert_ne!(TextWrap::Wrap, TextWrap::NoWrap);
}

#[test]
fn force_update_marks_dirty() {
    let mut value = 5;
    let mut dirty = false;
    {
        let mut d = DetectMut::new(&mut value, &mut dirty);
        assert_eq!(*d.get(), 5);
        d.force_update();
    }
    assert!(dirty);
    assert_eq!(value, 5);
}

#[test]
fn reading_is_no_change() {
    let mut value = String::from("x");
    let mut dirty = false;
    {
        let d = DetectMut::new(&mut value, &mut dirty);
        assert_eq!(d.get(), "x");
    }
    assert!(!dirty);
}

#[test]
fn writing_marks_dirty() {
    let mut value = 1;
    let mut dirty = false;
    {
        let mut d = DetectMut::new(&mut value, &mut dirty);
        *d.get_mut() = 7;
    }
    assert!(dirty);
    assert_eq!(value, 7);
}

use pixel_widgets::draw::Command;

#[test]
fn commands_join_adjacent_vertices() {
    let mut c: Command<u32> = Command::Nop;
    assert_eq!(c.append(Command::Colored { offset: 0, count: 3 }), None);
    assert_eq!(c, Command::Colored { offset: 0, count: 3 });
    assert_eq!(c.append(Command::Colored { offset: 3, count: 6 }), None);
    assert_eq!(c, Command::Colored { offset: 0, count: 9 });
    assert_eq!(c.append(Command::Nop), None);
    assert_eq!(c.append(Command::Colored { offset: 10, count: 3 }), Some(Command::Colored { offset: 10, count: 3 }));
    assert_eq!(c.append(Command::Clip { scissor: 5 }), Some(Command::Clip { scissor: 5 }));
    assert_eq!(c, Command::Colored { offset: 0, count: 9 });

    let mut t: Command<u32> = Command::Textured { texture: 2, offset: 6, count: 6 };
    assert_eq!(t.append(Command::Textured { texture: 2, offset: 12, count: 3 }), None);
    assert_eq!(t, Command::Textured { texture: 2, offset: 6, count: 9 });
    assert_eq!(
        t.append(Command::Textured { texture: 3, offset: 15, count: 3 }),
        Some(Command::Textured { texture: 3, offset: 15, count: 3 })
    );
    let mut clip: Command<u32> = Command::Clip { scissor: 1 };
    assert_eq!(clip.append(Command::Colored { offset: 0, count: 3 }), Some(Command::Colored { offset: 0, count: 3 }));
}
