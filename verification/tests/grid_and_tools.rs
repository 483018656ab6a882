use falling_sand::datatype::{GridMap, Rgba, Vector2};
use falling_sand::toolbox::ToolBox;

#[test]
fn grid_map_new_fills_default() {
    let g: GridMap<usize> = GridMap::new(4, 3, 7);
    assert_eq!(g.width(), 4);
    assert_eq!(g.height(), 3);
    for x in 0..4 {
        for y in 0..3 {
            assert_eq!(*g.get(x, y), 7);
        }
    }
}

#[test]
fn grid_map_set_then_get() {
    let mut g: GridMap<usize> = GridMap::new(5, 5, 0);
    g.set(2, 3, 42);
    assert_eq!(*g.get(2, 3), 42);
    for x in 0..5 {
        for y in 0..5 {
            if (x, y) != (2, 3) {
                assert_eq!(*g.get(x, y), 0);
            }
        }
    }
}

#[test]
fn grid_map_get_mut_updates_one_cell() {
    let mut g: GridMap<usize> = GridMap::new(3, 3, 0);
    *g.get_mut(1, 2) = 9;
    assert_eq!(*g.get(1, 2), 9);
    assert_eq!(*g.get(2, 1), 0);
}

#[test]
fn grid_map_decay_all_floors_at_zero() {
    let mut g: GridMap<usize> = GridMap::new(2, 2, 0);
    g.set(0, 0, 3);
    g.set(1, 1, 1);
    g.decay_all();
    assert_eq!(*g.get(0, 0), 2);
    assert_eq!(*g.get(0, 1), 0);
    assert_eq!(*g.get(1, 0), 0);
    assert_eq!(*g.get(1, 1), 0);
    g.decay_all();
    g.decay_all();
    assert_eq!(*g.get(0, 0), 0);
}

#[test]
fn vector2_convert_widens() {
    let v: Vector2<u8> = Vector2 { x: 3, y: 250 };
    let w: Vector2<u64> = v.convert();
    assert_eq!(w, Vector2 { x: 3u64, y: 250u64 });
}

#[test]
fn toolbox_defaults() {
    let t = ToolBox::new();
    assert_eq!(t.current_color_index(), 0);
    assert_eq!(t.points_per_paint(), 25);
    assert_eq!(t.mouse_box(), Vector2 { x: 15u32, y: 15u32 });
    assert_eq!(t.available_colors().len(), 5);
    assert_eq!(*t.get_current_color(), Rgba { r: 255, g: 255, b: 255, a: 255 });
}
