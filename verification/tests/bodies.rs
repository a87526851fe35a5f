use bgawk::bodies::{attraction_pairs, scripted_entities, spawn_requested, Body, Contact, Layers};

fn body(entity: u64, layer: u32) -> Body {
    Body { entity, layers: Layers::of_collision_layer(layer) }
}

#[test]
fn collision_layer_masks() {
    assert_eq!(Layers::of_collision_layer(0), Layers { memberships: 1, filters: 1 });
    assert_eq!(Layers::of_collision_layer(3), Layers { memberships: 8, filters: 8 });
    assert_eq!(
        Layers::of_collision_layer(31),
        Layers { memberships: 0x8000_0000, filters: 0x8000_0000 }
    );
    assert_eq!(Layers::from_bits(5, 9), Layers { memberships: 5, filters: 9 });
}

#[test]
fn layers_compare_both_masks() {
    assert!(Layers::from_bits(1, 2).same_as(&Layers::from_bits(1, 2)));
    assert!(!Layers::from_bits(1, 2).same_as(&Layers::from_bits(1, 3)));
    assert!(!Layers::from_bits(1, 2).same_as(&Layers::from_bits(4, 2)));
}

#[test]
fn spawn_needs_release_without_space_or_ui_drag() {
    assert!(spawn_requested(false, true, false));
    assert!(!spawn_requested(true, true, false));
    assert!(!spawn_requested(false, false, false));
    assert!(!spawn_requested(false, true, true));
}

#[test]
fn bodies_on_the_same_layer_attract_both_ways() {
    let bodies = vec![body(10, 1), body(11, 2), body(12, 1)];
    assert_eq!(attraction_pairs(&bodies), vec![(0, 2), (2, 0)]);
}

#[test]
fn no_body_attracts_itself() {
    let bodies = vec![body(7, 0)];
    assert!(attraction_pairs(&bodies).is_empty());
    // the same entity listed twice is still one body
    let bodies = vec![body(7, 0), body(7, 0)];
    assert!(attraction_pairs(&bodies).is_empty());
    assert!(attraction_pairs(&Vec::new()).is_empty());
}

#[test]
fn attraction_pairs_follow_nested_order() {
    let bodies = vec![body(1, 4), body(2, 4), body(3, 4)];
    assert_eq!(
        attraction_pairs(&bodies),
        vec![(0, 1), (0, 2), (1, 0), (1, 2), (2, 0), (2, 1)]
    );
}

#[test]
fn only_started_contacts_run_scripts() {
    let contacts = vec![
        Contact { started: true, entity1: 1, entity2: 2 },
        Contact { started: false, entity1: 3, entity2: 4 },
        Contact { started: true, entity1: 5, entity2: 1 },
    ];
    assert_eq!(scripted_entities(&contacts), vec![1, 2, 5, 1]);
    assert!(scripted_entities(&Vec::new()).is_empty());
}

#[test]
fn different_collision_layers_never_match() {
    for a in 0..32u32 {
        for b in 0..32u32 {
            let same = Layers::of_collision_layer(a).same_as(&Layers::of_collision_layer(b));
            assert_eq!(same, a == b);
        }
    }
}
