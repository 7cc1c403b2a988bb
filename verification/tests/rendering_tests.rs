use sokoban::components::{BoxColour, Position, Renderable, RenderableKind};
use sokoban::rendering_system::{build_render_batches, get_image, TILE_WIDTH};
use sokoban::resources::GameplayState;

fn animated() -> Renderable {
    Renderable::new_animated(vec![
        "a0.png".to_string(),
        "a1.png".to_string(),
        "a2.png".to_string(),
        "a3.png".to_string(),
    ])
}

fn item(x: u8, y: u8, z: u8, path: &str) -> (Position, Renderable) {
    (Position { x, y, z }, Renderable::new_static(path.to_string()))
}

#[test]
fn renderable_kinds() {
    let s = Renderable::new_static("floor.png".to_string());
    assert!(matches!(s.kind(), RenderableKind::Static));
    let a = animated();
    assert!(matches!(a.kind(), RenderableKind::Animated));
    assert_eq!(a.path(1), "a1.png");
    assert_eq!(a.path(6), "a2.png");
}

#[test]
fn frame_selection_anchors() {
    let a = animated();
    assert_eq!(get_image(&a, 0), "a0.png");
    assert_eq!(get_image(&a, 250), "a1.png");
    assert_eq!(get_image(&a, 500), "a2.png");
    assert_eq!(get_image(&a, 999), "a3.png");
    // periodic with period 1000 ms
    assert_eq!(get_image(&a, 1000), "a0.png");
    assert_eq!(get_image(&a, 1250), "a1.png");
}

#[test]
fn static_renderable_ignores_elapsed_time() {
    let s = Renderable::new_static("wall.png".to_string());
    assert_eq!(get_image(&s, 0), "wall.png");
    assert_eq!(get_image(&s, 250), "wall.png");
    assert_eq!(get_image(&s, 999), "wall.png");
    assert_eq!(get_image(&s, 123456), "wall.png");
}

#[test]
fn animated_cycle_wraps_by_path_count() {
    let two = Renderable::new_animated(vec!["b0.png".to_string(), "b1.png".to_string()]);
    // sub-interval index 2 wraps to path 0, index 3 to path 1
    assert_eq!(get_image(&two, 0), "b0.png");
    assert_eq!(get_image(&two, 250), "b1.png");
    assert_eq!(get_image(&two, 500), "b0.png");
    assert_eq!(get_image(&two, 750), "b1.png");
}

#[test]
fn batches_group_by_layer_then_path() {
    // layers arrive out of order: the batcher must emit layer 1 before 2
    let items = vec![
        item(1, 0, 2, "a.png"),
        item(2, 0, 1, "b.png"),
        item(3, 0, 1, "b.png"),
        item(4, 0, 2, "b.png"),
        item(5, 0, 1, "a.png"),
    ];
    let batches = build_render_batches(&items, 0);
    assert_eq!(batches.len(), 4);
    assert_eq!(batches[0].z, 1);
    assert_eq!(batches[0].path, "b.png");
    assert_eq!(batches[0].dests, vec![(2 * TILE_WIDTH, 0), (3 * TILE_WIDTH, 0)]);
    assert_eq!(batches[1].z, 1);
    assert_eq!(batches[1].path, "a.png");
    assert_eq!(batches[1].dests, vec![(5 * TILE_WIDTH, 0)]);
    assert_eq!(batches[2].z, 2);
    assert_eq!(batches[2].path, "a.png");
    assert_eq!(batches[2].dests, vec![(1 * TILE_WIDTH, 0)]);
    assert_eq!(batches[3].z, 2);
    assert_eq!(batches[3].path, "b.png");
    assert_eq!(batches[3].dests, vec![(4 * TILE_WIDTH, 0)]);
}

#[test]
fn same_path_on_different_layers_never_merges() {
    let items = vec![item(1, 0, 0, "t.png"), item(2, 0, 7, "t.png")];
    let batches = build_render_batches(&items, 0);
    assert_eq!(batches.len(), 2);
    assert_eq!((batches[0].z, batches[1].z), (0, 7));
    assert_eq!(batches[0].path, "t.png");
    assert_eq!(batches[1].path, "t.png");
}

#[test]
fn one_batch_covers_all_sharing_layer_and_path() {
    let items = vec![
        item(1, 1, 3, "t.png"),
        item(2, 2, 3, "t.png"),
        item(3, 3, 3, "t.png"),
    ];
    let batches = build_render_batches(&items, 0);
    assert_eq!(batches.len(), 1);
    assert_eq!(batches[0].dests.len(), 3);
    assert_eq!(
        batches[0].dests,
        vec![(TILE_WIDTH, TILE_WIDTH), (2 * TILE_WIDTH, 2 * TILE_WIDTH), (
            3 * TILE_WIDTH,
            3 * TILE_WIDTH,
        )]
    );
}

#[test]
fn animated_entities_batch_by_resolved_frame() {
    let items = vec![
        (Position { x: 0, y: 0, z: 0 }, animated()),
        (Position { x: 1, y: 0, z: 0 }, animated()),
    ];
    let batches = build_render_batches(&items, 250);
    assert_eq!(batches.len(), 1);
    assert_eq!(batches[0].path, "a1.png");
    assert_eq!(batches[0].dests.len(), 2);
}

#[test]
fn empty_drawables_make_no_batches() {
    let items: Vec<(Position, Renderable)> = Vec::new();
    let batches = build_render_batches(&items, 0);
    assert_eq!(batches.len(), 0);
}

#[test]
fn colour_names() {
    assert_eq!(BoxColour::Red.name(), "red");
    assert_eq!(BoxColour::Blue.name(), "blue");
    assert_eq!(BoxColour::Grey.name(), "grey");
    assert_eq!(GameplayState::Playing.label(), "Playing");
    assert_eq!(GameplayState::Won.label(), "Won");
}
