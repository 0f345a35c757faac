use master_control::roster::{
    ring_walk, Admission, DerezRefusal, Roster, GUEST_CREATURE_ID, SET_DRESSING_LAST_ID, SET_DRESSING_ROWS,
};
use master_control::record::DeclaredBounds;
use master_control::validator::DeclaredChain;
use master_control::wire::{
    REZ_MAX_VERTICES, TICK_STATE_MAX_CREATURES, REFUSED_OWNED, REFUSED_FULL, REFUSED_CROWDED, REFUSED_BOUNDS,
};

/// A body stands for where it was stood; a model is its vertices' bit patterns.
type Body = u32;
type Model = Vec<[u32; 3]>;

fn guest_world() -> Roster<Body, Model> {
    Roster::with_the_guest(0, Vec::new())
}

fn model() -> Model {
    vec![[0.0f32.to_bits(), 0.1f32.to_bits(), 0.0f32.to_bits()]]
}

/// The first body's bounds: a metre a second, a right angle a second, a full call, four
/// contacts.
fn first_body() -> DeclaredBounds {
    DeclaredBounds {
        max_forward_speed: 1.0f32.to_bits(),
        max_turn_rate: std::f32::consts::FRAC_PI_2.to_bits(),
        max_vocalisation_strength: 1.0f32.to_bits(),
        max_contact_count: 4,
    }
}

fn single() -> DeclaredChain {
    DeclaredChain { segment_count: 1, segment_spacing: 0 }
}

/// A rez judged by the world's validator, stood on spot `creature_id` if new.
fn rez_judged(roster: &mut Roster<Body, Model>, sender: u64, creature_id: u32, bounds: DeclaredBounds, mesh: Model) -> Admission {
    roster.rez(sender, creature_id, &bounds, &single(), &mesh.clone(), mesh, Some(creature_id))
}

/// A rez of the first body with the one-vertex model.
fn rez(roster: &mut Roster<Body, Model>, sender: u64, creature_id: u32) -> Admission {
    rez_judged(roster, sender, creature_id, first_body(), model())
}

fn with_vertex(position: [f32; 3]) -> Model {
    let mut mesh = model();
    mesh.push([position[0].to_bits(), position[1].to_bits(), position[2].to_bits()]);
    mesh
}

#[test]
fn the_world_opens_with_its_own_guest_unowned() {
    let roster = guest_world();
    assert_eq!(roster.len(), 1);
    assert_eq!(roster.owner_of(GUEST_CREATURE_ID), Some(None));
    assert_eq!(roster.owner_of(7), None, "nobody wears 7");
    assert_eq!(roster.models().len(), 1);
}

#[test]
fn a_rez_embodies_relays_and_a_second_host_is_refused() {
    let mut roster = guest_world();
    assert_eq!(rez(&mut roster, 1, 7), Admission::Embodied);
    assert_eq!(roster.owner_of(7), Some(Some(1)));
    assert_eq!(
        roster.resident(7).expect("embodied").model.len(),
        1,
        "the model is kept whole for the relay"
    );
    assert_eq!(rez(&mut roster, 2, 7), Admission::RefusedOwned { owner: 1 }, "sender owns creature");
    assert_eq!(
        rez(&mut roster, 1, 7),
        Admission::Adopted,
        "the owner may rez again - a new body, the same identity"
    );
    assert_eq!(roster.len(), 2);
}

#[test]
fn an_orphan_is_adopted_by_rez_or_by_steering_and_leaves_only_with_its_owner() {
    let mut roster = guest_world();
    assert!(roster.claim(GUEST_CREATURE_ID, 5), "the first to steer takes it up");
    assert!(!roster.claim(GUEST_CREATURE_ID, 6), "and the second does not");
    assert_eq!(roster.orphan(5), vec![GUEST_CREATURE_ID]);
    assert_eq!(
        roster.owner_of(GUEST_CREATURE_ID),
        Some(None),
        "a dead host's creature stays embodied, ownerless"
    );
    assert_eq!(rez(&mut roster, 6, GUEST_CREATURE_ID), Admission::Adopted);
    assert_eq!(roster.derez(7, GUEST_CREATURE_ID), Err(DerezRefusal::NotOwner { owner: Some(6) }));
    assert_eq!(roster.derez(6, 9), Err(DerezRefusal::NotResident));
    assert_eq!(roster.derez(6, GUEST_CREATURE_ID), Ok(()));
    assert!(roster.is_empty());
}

#[test]
fn a_bye_takes_every_owned_creature_and_nothing_else() {
    let mut roster = guest_world();
    rez(&mut roster, 1, 7);
    rez(&mut roster, 1, 9);
    rez(&mut roster, 2, 8);
    assert_eq!(roster.leave(1), vec![7, 9], "in roster order");
    assert_eq!(roster.len(), 2);
    assert_eq!(roster.owner_of(8), Some(Some(2)));
    assert_eq!(roster.leave(3), Vec::<u32>::new());
}

#[test]
fn the_set_dressings_identities_are_nobodys_to_wear() {
    let mut roster = guest_world();
    for id in 0..=SET_DRESSING_LAST_ID {
        assert!(
            matches!(rez(&mut roster, 1, id), Admission::RefusedBounds(_)),
            "creature {id} is the scenery's"
        );
    }
    assert_eq!(rez(&mut roster, 1, SET_DRESSING_LAST_ID + 1), Admission::Embodied);
    // And infinity, which the wire refuses before the roster ever sees it, is named for what
    // it is if it ever arrives: not a normal number, not a subnormal.
    assert_eq!(
        rez_judged(&mut roster, 1, 9, first_body(), with_vertex([f32::INFINITY, 0.0, 0.0])),
        Admission::RefusedBounds("a vertex coordinate is not a normal number")
    );
}

#[test]
fn the_roster_fills_to_what_the_snapshot_can_carry_and_no_further() {
    let mut roster = guest_world();
    let mut next_id = 1_000;
    while roster.len() < Roster::<Body, Model>::capacity() {
        assert_eq!(rez(&mut roster, 1, next_id), Admission::Embodied);
        next_id += 1;
    }
    assert_eq!(rez(&mut roster, 1, next_id), Admission::RefusedFull);
    assert_eq!(
        roster.len() as u32 + SET_DRESSING_ROWS,
        TICK_STATE_MAX_CREATURES,
        "every row the wire can carry, and not one more"
    );
}

#[test]
fn a_full_pad_refuses_a_newcomer_and_an_adoption_keeps_the_body_where_it_stands() {
    let mut roster = guest_world();
    assert_eq!(roster.rez(1, 7, &first_body(), &single(), &model(), model(), None), Admission::RefusedCrowded);
    assert_eq!(roster.owner_of(7), None, "a refusal changes nothing");
    assert_eq!(
        roster.rez(1, GUEST_CREATURE_ID, &first_body(), &single(), &Vec::new(), Vec::new(), None),
        Admission::Adopted
    );
    assert_eq!(roster.resident(GUEST_CREATURE_ID).expect("guest").body, 0, "taken up where it stands");
    roster.set_body(GUEST_CREATURE_ID, 42);
    assert_eq!(roster.resident(GUEST_CREATURE_ID).expect("guest").body, 42);
    assert_eq!(roster.ids_in_order(), vec![GUEST_CREATURE_ID]);
}

#[test]
fn every_refusal_names_its_wire_reason_and_an_admission_none() {
    assert_eq!(Admission::Embodied.wire_reason(), None);
    assert_eq!(Admission::Adopted.wire_reason(), None);
    assert_eq!(Admission::RefusedOwned { owner: 3 }.wire_reason(), Some(REFUSED_OWNED));
    assert_eq!(Admission::RefusedFull.wire_reason(), Some(REFUSED_FULL));
    assert_eq!(Admission::RefusedCrowded.wire_reason(), Some(REFUSED_CROWDED));
    assert_eq!(Admission::RefusedBounds("too fast").wire_reason(), Some(REFUSED_BOUNDS));
}

#[test]
fn bounds_outside_the_world_are_refused_by_name() {
    let mut roster = guest_world();
    let fast = DeclaredBounds { max_forward_speed: (10.0f32 + 0.001).to_bits(), ..first_body() };
    assert!(matches!(rez_judged(&mut roster, 1, 7, fast, model()), Admission::RefusedBounds(_)));
    let still = DeclaredBounds { max_turn_rate: 0.0f32.to_bits(), ..first_body() };
    assert!(matches!(rez_judged(&mut roster, 1, 7, still, model()), Admission::RefusedBounds(_)));
    let loud = DeclaredBounds { max_vocalisation_strength: 1.5f32.to_bits(), ..first_body() };
    assert!(matches!(rez_judged(&mut roster, 1, 7, loud, model()), Admission::RefusedBounds(_)));
    let numb = DeclaredBounds { max_contact_count: 0, ..first_body() };
    assert!(matches!(rez_judged(&mut roster, 1, 7, numb, model()), Admission::RefusedBounds(_)));
    assert_eq!(roster.len(), 1, "nothing was admitted");
    assert_eq!(rez(&mut roster, 1, 7), Admission::Embodied);
    let at_the_edge = DeclaredBounds { max_forward_speed: 10.0f32.to_bits(), max_contact_count: 16, ..first_body() };
    assert_eq!(rez_judged(&mut roster, 1, 8, at_the_edge, model()), Admission::Embodied, "the edge is inside");
}

#[test]
fn a_body_reaching_past_its_extent_or_made_of_subnormals_is_refused_and_a_degenerate_one_is_a_point() {
    let mut roster = guest_world();
    assert!(
        matches!(rez_judged(&mut roster, 1, 7, first_body(), with_vertex([0.0, 0.0, 1.0e30])), Admission::RefusedBounds(_)),
        "a vertex at 1e30 m is not a body"
    );
    assert!(matches!(
        rez_judged(&mut roster, 1, 7, first_body(), with_vertex([-(4.0 + 0.001), 0.0, 0.0])),
        Admission::RefusedBounds(_)
    ));
    assert!(
        matches!(rez_judged(&mut roster, 1, 7, first_body(), with_vertex([0.0, 1.0e-40, 0.0])), Admission::RefusedBounds(_)),
        "a subnormal coordinate rounds differently on different machines"
    );
    assert_eq!(roster.len(), 1, "nothing was admitted");
    assert_eq!(rez_judged(&mut roster, 1, 8, first_body(), with_vertex([4.0, -4.0, 4.0])), Admission::Embodied);
    // A thousand copies of one point: admitted, no panic.
    let heap: Model = (0..REZ_MAX_VERTICES).map(|_| [0.25f32.to_bits(); 3]).collect();
    assert_eq!(rez_judged(&mut roster, 1, 9, first_body(), heap), Admission::Embodied);
    assert_eq!(roster.len(), 3);
}

#[test]
fn the_spawn_spiral_walks_each_ring_once_from_the_east() {
    assert_eq!(ring_walk(0), vec![(0, 0)], "ring 0 is the pad itself");
    assert_eq!(
        ring_walk(1),
        vec![(1, -1), (1, 0), (1, 1), (0, 1), (-1, 1), (-1, 0), (-1, -1), (0, -1)],
        "east edge, south edge, west edge, north edge"
    );
    for ring in 1..=8 {
        let walk = ring_walk(ring);
        assert_eq!(walk.len(), 8 * ring as usize);
        for (i, spot) in walk.iter().enumerate() {
            assert_eq!(spot.0.abs().max(spot.1.abs()), ring, "{spot:?} lies on ring {ring}");
            assert!(!walk[i + 1..].contains(spot), "{spot:?} is walked once");
        }
    }
}
