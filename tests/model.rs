use metaballz::{Metaball, Model, DEFAULT_GRID_SIZE};

#[test]
fn advance_then_deadvance_round_trip() {
    let mut model = Model::new(200, 200);
    model.add_metaball(Metaball::new(100, 100, 50, 5, 0));
    assert!(model.advance());
    assert_eq!((model.metaballz[0].x, model.metaballz[0].y), (105, 100));
    assert!(model.deadvance());
    assert_eq!((model.metaballz[0].x, model.metaballz[0].y), (100, 100));
    assert_eq!(model.metaballz[0], Metaball::new(100, 100, 50, 5, 0));
}

#[test]
fn advance_moves_every_source() {
    let mut model = Model::new(200, 200);
    model.add_metaball(Metaball::new(1, 2, 3, 4, -5));
    model.add_metaball(Metaball::new(-10, 20, 3, -1, 7));
    assert!(model.advance());
    assert!(model.advance());
    assert_eq!((model.metaballz[0].x, model.metaballz[0].y), (9, -8));
    assert_eq!((model.metaballz[1].x, model.metaballz[1].y), (-12, 34));
    assert!(model.deadvance());
    assert_eq!((model.metaballz[1].x, model.metaballz[1].y), (-11, 27));
}

#[test]
fn advance_out_of_range_changes_nothing() {
    let mut model = Model::new(200, 200);
    model.add_metaball(Metaball::new(0, 0, 3, 1, 1));
    model.add_metaball(Metaball::new(i32::MAX, 0, 3, 1, 0));
    assert!(!model.advance());
    assert_eq!(model.metaballz[0], Metaball::new(0, 0, 3, 1, 1));
    assert_eq!(model.metaballz[1], Metaball::new(i32::MAX, 0, 3, 1, 0));
    let mut low = Model::new(10, 10);
    low.add_metaball(Metaball::new(0, i32::MIN, 3, 0, 1));
    assert!(!low.deadvance());
    assert_eq!(low.metaballz[0].y, i32::MIN);
}

#[test]
fn grid_size_guard() {
    let mut model = Model::new(200, 200);
    assert_eq!(model.grid_size, DEFAULT_GRID_SIZE);
    model.set_grid_size(10);
    assert_eq!(model.grid_size, 10);
    model.set_grid_size(0);
    assert_eq!(model.grid_size, 10);
    model.set_grid_size(-5);
    assert_eq!(model.grid_size, 10);
    model.set_grid_size(i32::MIN);
    assert_eq!(model.grid_size, 10);
    model.set_grid_size(1);
    assert_eq!(model.grid_size, 1);
}

#[test]
fn fine_adjustment_sets_offsets() {
    let mut model = Model::new(200, 200);
    model.add_metaball(Metaball::new(100, 100, 50, 7, -3));
    assert!(model.set_fine_adjustment(5, 10));
    assert_eq!((model.metaballz[0].x_offset, model.metaballz[0].y_offset), (3, -1));
    assert_eq!((model.metaballz[0].x, model.metaballz[0].y), (100, 100));
    assert!(model.set_fine_adjustment(-20, 10));
    assert_eq!((model.metaballz[0].x_offset, model.metaballz[0].y_offset), (-14, 6));
    assert!(model.set_fine_adjustment(5, -10));
    assert_eq!((model.metaballz[0].x_offset, model.metaballz[0].y_offset), (-3, 1));
    assert!(model.set_fine_adjustment(-20, -10));
    assert_eq!((model.metaballz[0].x_offset, model.metaballz[0].y_offset), (14, -6));
    assert!(!model.set_fine_adjustment(5, 0));
    assert_eq!((model.metaballz[0].x_offset, model.metaballz[0].y_offset), (14, -6));
}

#[test]
fn fine_adjustment_out_of_range_changes_nothing() {
    let mut model = Model::new(200, 200);
    model.add_metaball(Metaball::new(0, 0, 5, i32::MAX, 0));
    assert!(!model.set_fine_adjustment(2, 1));
    assert_eq!(model.metaballz[0].x_offset, 0);
}

#[test]
fn edit_and_remove_sources() {
    let mut model = Model::new(200, 100);
    model.add_metaball(Metaball::new(1, 1, 1, 0, 0));
    model.add_metaball(Metaball::new(2, 2, 2, 0, 0));
    model.add_metaball(Metaball::new(3, 3, 3, 0, 0));
    model.set_metaball(1, Metaball::new(20, 20, 20, 1, 1));
    assert_eq!(model.metaballz[1], Metaball::new(20, 20, 20, 1, 1));
    model.remove_metaball(0);
    assert_eq!(model.metaballz.len(), 2);
    assert_eq!(model.metaballz[0], Metaball::new(20, 20, 20, 1, 1));
    assert_eq!(model.metaballz[1], Metaball::new(3, 3, 3, 0, 0));
    model.set_viewport(640, 480);
    assert_eq!((model.width, model.height), (640, 480));
}
