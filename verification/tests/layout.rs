use gabelstaplerwm::wm::layout::any::AnyLayout;
use gabelstaplerwm::wm::layout::monocle::Monocle;
use gabelstaplerwm::wm::layout::stack::{HStack, VStack};
use gabelstaplerwm::wm::layout::{Geometry, Layout, LayoutMessage, TilingArea};

fn area() -> TilingArea {
    TilingArea { offset_x: 10, offset_y: 20, width: 1000, height: 600 }
}

fn rect(x: u32, y: u32, width: u32, height: u32) -> Option<Geometry> {
    Some(Geometry { x, y, width, height })
}

fn check_coverage(geometries: &[Option<Geometry>], area: &TilingArea) {
    let shown: Vec<&Geometry> = geometries.iter().flatten().collect();
    for g in shown.iter() {
        assert!(g.x >= area.offset_x);
        assert!(g.y >= area.offset_y);
        assert!(g.x as u64 + g.width as u64 <= area.offset_x as u64 + area.width as u64);
        assert!(g.y as u64 + g.height as u64 <= area.offset_y as u64 + area.height as u64);
    }
    for (i, a) in shown.iter().enumerate() {
        for b in shown.iter().skip(i + 1) {
            let apart = a.x as u64 + a.width as u64 <= b.x as u64
                || b.x as u64 + b.width as u64 <= a.x as u64
                || a.y as u64 + a.height as u64 <= b.y as u64
                || b.y as u64 + b.height as u64 <= a.y as u64;
            assert!(apart, "{:?} overlaps {:?}", a, b);
        }
    }
}

#[test]
fn area_fits() {
    assert!(area().check_fits());
    assert!(TilingArea { offset_x: u32::MAX, offset_y: 0, width: 0, height: 0 }.check_fits());
    assert!(!TilingArea { offset_x: u32::MAX, offset_y: 0, width: 1, height: 0 }.check_fits());
    assert!(!TilingArea { offset_x: 0, offset_y: 7, width: 1, height: u32::MAX - 6 }.check_fits());
    assert_eq!(TilingArea::default(), TilingArea { offset_x: 0, offset_y: 0, width: 0, height: 0 });
}

#[test]
fn monocle_shows_the_focused_client_only() {
    let layout = Monocle::default();
    assert_eq!(layout.arrange(0, 0, &area()), Vec::new());
    assert_eq!(layout.arrange(3, 1, &area()), vec![None, rect(10, 20, 1000, 600), None]);
    assert_eq!(layout.arrange(2, 5, &area()), vec![None, None]);
    assert_eq!(layout.left_window(1, 2), None);
    assert_eq!(layout.right_window(1, 2), None);
    assert_eq!(layout.top_window(1, 2), None);
    assert_eq!(layout.bottom_window(1, 2), None);
    let mut layout = layout;
    assert!(!layout.edit_layout(LayoutMessage::MasterFactorRel(5)));
    assert!(!layout.edit_layout(LayoutMessage::ColumnRel(1)));
}

#[test]
fn vstack_places_master_and_bands() {
    let layout = VStack { master_factor: 60, inverted: false, fixed: false };
    assert_eq!(layout.arrange(0, 0, &area()), Vec::new());
    assert_eq!(layout.arrange(1, 0, &area()), vec![rect(10, 20, 1000, 600)]);
    assert_eq!(
        layout.arrange(2, 0, &area()),
        vec![rect(10, 20, 600, 600), rect(610, 20, 400, 600)]
    );
    assert_eq!(
        layout.arrange(4, 0, &area()),
        vec![
            rect(10, 20, 600, 600),
            rect(610, 20, 400, 200),
            rect(610, 220, 400, 200),
            rect(610, 420, 400, 200),
        ]
    );
    let inverted = VStack { master_factor: 60, inverted: true, fixed: false };
    assert_eq!(
        inverted.arrange(3, 0, &area()),
        vec![rect(410, 20, 600, 600), rect(10, 20, 400, 300), rect(10, 320, 400, 300)]
    );
    let fixed = VStack { master_factor: 75, inverted: false, fixed: true };
    assert_eq!(fixed.arrange(1, 0, &area()), vec![rect(10, 20, 750, 600)]);
    let fixed_inverted = VStack { master_factor: 75, inverted: true, fixed: true };
    assert_eq!(fixed_inverted.arrange(1, 0, &area()), vec![rect(260, 20, 750, 600)]);
}

#[test]
fn hstack_places_master_and_bands() {
    let layout = HStack { master_factor: 50, inverted: false, fixed: false };
    assert_eq!(layout.arrange(1, 0, &area()), vec![rect(10, 20, 1000, 600)]);
    assert_eq!(
        layout.arrange(3, 0, &area()),
        vec![rect(10, 20, 1000, 300), rect(10, 320, 500, 300), rect(510, 320, 500, 300)]
    );
    let inverted = HStack { master_factor: 75, inverted: true, fixed: false };
    assert_eq!(
        inverted.arrange(2, 0, &area()),
        vec![rect(10, 170, 1000, 450), rect(10, 20, 1000, 150)]
    );
}

#[test]
fn bands_round_down_and_factors_are_capped() {
    let small = TilingArea { offset_x: 0, offset_y: 0, width: 10, height: 10 };
    let layout = VStack { master_factor: 33, inverted: false, fixed: false };
    assert_eq!(
        layout.arrange(4, 0, &small),
        vec![rect(0, 0, 3, 10), rect(3, 0, 7, 3), rect(3, 3, 7, 3), rect(3, 6, 7, 3)]
    );
    let over = VStack { master_factor: 250, inverted: false, fixed: false };
    assert_eq!(over.arrange(2, 0, &small), vec![rect(0, 0, 10, 10), rect(10, 0, 0, 10)]);
    let none = VStack { master_factor: 0, inverted: false, fixed: false };
    assert_eq!(none.arrange(2, 0, &small), vec![rect(0, 0, 0, 10), rect(0, 0, 10, 10)]);
    let huge = TilingArea { offset_x: 5, offset_y: 0, width: u32::MAX - 5, height: u32::MAX };
    let layout = VStack { master_factor: 100, inverted: true, fixed: false };
    assert_eq!(
        layout.arrange(2, 0, &huge),
        vec![rect(5, 0, u32::MAX - 5, u32::MAX), rect(5, 0, 0, u32::MAX)]
    );
}

#[test]
fn layout_coverage() {
    let areas = [
        area(),
        TilingArea { offset_x: 0, offset_y: 0, width: 0, height: 0 },
        TilingArea { offset_x: 3, offset_y: 5, width: 7, height: 2 },
        TilingArea { offset_x: 100, offset_y: 0, width: u32::MAX - 100, height: u32::MAX },
    ];
    for area in areas.iter() {
        for count in 1..9usize {
            for focused in 0..count {
                for factor in [0u8, 1, 33, 50, 99, 100, 200] {
                    for inverted in [false, true] {
                        for fixed in [false, true] {
                            let v = VStack { master_factor: factor, inverted, fixed };
                            let h = HStack { master_factor: factor, inverted, fixed };
                            let got = v.arrange(count, focused, area);
                            assert_eq!(got.len(), count);
                            check_coverage(&got, area);
                            let got = h.arrange(count, focused, area);
                            assert_eq!(got.len(), count);
                            check_coverage(&got, area);
                            let got = AnyLayout::VStack(v).arrange(count, focused, area);
                            assert_eq!(got, v.arrange(count, focused, area));
                        }
                    }
                }
                let got = Monocle::default().arrange(count, focused, area);
                assert_eq!(got.len(), count);
                check_coverage(&got, area);
            }
        }
    }
}

#[test]
fn stack_neighbours() {
    let v = VStack { master_factor: 50, inverted: false, fixed: false };
    assert_eq!(v.right_window(0, 3), Some(1));
    assert_eq!(v.right_window(0, 0), None);
    assert_eq!(v.right_window(2, 3), None);
    assert_eq!(v.left_window(0, 3), None);
    assert_eq!(v.left_window(2, 3), Some(0));
    assert_eq!(v.top_window(0, 3), None);
    assert_eq!(v.top_window(1, 3), None);
    assert_eq!(v.top_window(3, 3), Some(2));
    assert_eq!(v.bottom_window(0, 3), None);
    assert_eq!(v.bottom_window(1, 3), Some(2));
    assert_eq!(v.bottom_window(3, 3), None);
    assert_eq!(v.bottom_window(4, 3), None);
    assert_eq!(v.left_window(4, 3), None);
    let vi = VStack { master_factor: 50, inverted: true, fixed: false };
    assert_eq!(vi.left_window(0, 3), Some(1));
    assert_eq!(vi.right_window(0, 3), None);
    assert_eq!(vi.right_window(3, 3), Some(0));
    assert_eq!(vi.left_window(3, 3), None);
    let h = HStack { master_factor: 50, inverted: false, fixed: false };
    assert_eq!(h.bottom_window(0, 2), Some(1));
    assert_eq!(h.top_window(2, 2), Some(0));
    assert_eq!(h.top_window(0, 2), None);
    assert_eq!(h.left_window(2, 2), Some(1));
    assert_eq!(h.left_window(1, 2), None);
    assert_eq!(h.right_window(1, 2), Some(2));
    assert_eq!(h.right_window(2, 2), None);
    assert_eq!(h.right_window(0, 2), None);
    let hi = HStack { master_factor: 50, inverted: true, fixed: false };
    assert_eq!(hi.top_window(0, 2), Some(1));
    assert_eq!(hi.bottom_window(1, 2), Some(0));
    let any = AnyLayout::HStack(h);
    assert_eq!(any.bottom_window(0, 2), Some(1));
    assert_eq!(AnyLayout::Monocle(Monocle::default()).bottom_window(0, 2), None);
}

#[test]
fn master_factor_saturates() {
    let mut v = VStack { master_factor: 50, inverted: false, fixed: true };
    assert!(v.edit_layout(LayoutMessage::MasterFactorRel(5)));
    assert_eq!(v.master_factor, 55);
    assert!(v.edit_layout(LayoutMessage::MasterFactorRel(-60)));
    assert_eq!(v.master_factor, 0);
    assert!(v.edit_layout(LayoutMessage::MasterFactorRel(127)));
    assert_eq!(v.master_factor, 100);
    assert!(v.edit_layout(LayoutMessage::MasterFactorRel(-128)));
    assert_eq!(v.master_factor, 0);
    assert!(!v.edit_layout(LayoutMessage::ColumnRel(1)));
    assert_eq!(v, VStack { master_factor: 0, inverted: false, fixed: true });
    let mut h = HStack { master_factor: 200, inverted: true, fixed: false };
    assert!(h.edit_layout(LayoutMessage::MasterFactorRel(-5)));
    assert_eq!(h.master_factor, 95);
    let mut any = AnyLayout::VStack(VStack::default());
    assert!(any.edit_layout(LayoutMessage::MasterFactorRel(-5)));
    assert_eq!(any, AnyLayout::VStack(VStack { master_factor: 45, inverted: false, fixed: false }));
    let mut any = AnyLayout::Monocle(Monocle::default());
    assert!(!any.edit_layout(LayoutMessage::MasterFactorRel(-5)));
    assert_eq!(HStack::default(), HStack { master_factor: 50, inverted: false, fixed: false });
}
