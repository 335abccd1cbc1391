use droplet_core::action::{Action, ExecError};
use droplet_core::droplet::DropletId;
use droplet_core::geom::Location;
use droplet_core::grid::Grid;
use droplet_core::gridview::GridView;
use droplet_core::droplet::Droplet;
use droplet_core::route::{paths_to_actions, route_one, AvoidanceSet, Node};

fn id(n: u64) -> DropletId {
    DropletId { id: n, process_id: 0 }
}

fn loc(y: u32, x: u32) -> Location {
    Location { y, x }
}

fn add(gv: &mut GridView, n: u64, y: u32, x: u32, volume: u64) {
    let r = gv.execute(&Action::AddDroplet {
        id: id(n),
        location: loc(y, x),
        dimensions: loc(1, 1),
        volume,
    });
    assert_eq!(r, Ok(()));
}

#[test]
fn mix_conserves_volume() {
    let mut gv = GridView::new_with_defaults(Grid::rectangle(3, 3));
    add(&mut gv, 1, 1, 1, 10);
    let r = gv.execute(&Action::AddDroplet {
        id: id(2),
        location: loc(1, 1),
        dimensions: loc(1, 1),
        volume: 20,
    });
    assert_eq!(r, Ok(()));
    let r = gv.execute(&Action::Mix { in0: id(1), in1: id(2), out: id(3) });
    assert_eq!(r, Ok(()));
    assert_eq!(gv.execute(&Action::Tick), Ok(()));
    let infos = gv.droplet_info(None);
    assert_eq!(infos.len(), 1);
    assert_eq!(infos[0].id, id(3));
    assert_eq!(infos[0].volume, 30);
    assert_eq!(infos[0].location, loc(1, 1));
}

#[test]
fn split_with_zero_stdev_is_exact() {
    let mut gv = GridView::new_with_defaults(Grid::rectangle(3, 3));
    add(&mut gv, 1, 1, 1, 40);
    let r = gv.execute(&Action::Split { inp: id(1), out0: id(2), out1: id(3) });
    assert_eq!(r, Ok(()));
    let mut vols: Vec<u64> = gv.droplet_info(None).iter().map(|i| i.volume).collect();
    vols.sort();
    assert_eq!(vols, vec![20, 20]);
}

#[test]
fn noisy_split_is_clamped_and_conserves_volume() {
    for _ in 0..5 {
        let mut gv = GridView::new(Grid::rectangle(3, 3), 100);
        add(&mut gv, 1, 1, 1, 4);
        let r = gv.execute(&Action::Split { inp: id(1), out0: id(2), out1: id(3) });
        assert_eq!(r, Ok(()));
        let infos = gv.droplet_info(None);
        let v0 = infos[0].volume;
        let v1 = infos[1].volume;
        assert!(v0 <= 4 && v1 <= 4);
        assert_eq!(v0 + v1, 4);
    }
}

#[test]
fn split_noise_is_deterministic() {
    let mut a = GridView::new(Grid::rectangle(3, 3), 1000);
    let mut b = GridView::new(Grid::rectangle(3, 3), 1000);
    for gv in [&mut a, &mut b] {
        add(gv, 1, 1, 1, 5000);
        assert_eq!(gv.execute(&Action::Split { inp: id(1), out0: id(2), out1: id(3) }), Ok(()));
    }
    let va: Vec<u64> = a.droplet_info(None).iter().map(|i| i.volume).collect();
    let vb: Vec<u64> = b.droplet_info(None).iter().map(|i| i.volume).collect();
    assert_eq!(va, vb);
}

#[test]
fn zero_step_move_is_identity() {
    let mut gv = GridView::new_with_defaults(Grid::rectangle(3, 3));
    add(&mut gv, 1, 1, 1, 7);
    let before = gv.droplet_info(None);
    assert_eq!(gv.execute(&Action::MoveDroplet { id: id(1), location: loc(1, 1) }), Ok(()));
    let after = gv.droplet_info(None);
    assert_eq!(before.len(), after.len());
    assert_eq!(before[0].location, after[0].location);
    assert_eq!(before[0].volume, after[0].volume);
}

#[test]
fn collisions_are_detected_at_ticks() {
    let mut gv = GridView::new_with_defaults(Grid::rectangle(4, 4));
    add(&mut gv, 1, 0, 0, 1);
    add(&mut gv, 2, 0, 1, 1);
    match gv.execute(&Action::Tick) {
        Err(ExecError::CollisionAtTick { .. }) => {}
        other => panic!("expected a collision, got {:?}", other),
    }
    assert!(gv.get_collision().is_some());
}

#[test]
fn same_collision_group_may_overlap() {
    let mut gv = GridView::new_with_defaults(Grid::rectangle(4, 4));
    add(&mut gv, 1, 0, 0, 1);
    add(&mut gv, 2, 0, 1, 1);
    // rewrite ids so both droplets carry the same collision group tag
    assert_eq!(gv.execute(&Action::RemoveDroplet { id: id(2) }), Ok(()));
    let r = gv.execute(&Action::AddDroplet {
        id: DropletId { id: 1, process_id: 1 },
        location: loc(0, 1),
        dimensions: loc(1, 1),
        volume: 1,
    });
    assert_eq!(r, Ok(()));
    assert_eq!(gv.execute(&Action::Tick), Ok(()));
}

#[test]
fn error_cases_are_reported() {
    let mut gv = GridView::new_with_defaults(Grid::rectangle(3, 3));
    add(&mut gv, 1, 0, 0, 1);
    let dup = gv.execute(&Action::AddDroplet {
        id: id(1),
        location: loc(2, 2),
        dimensions: loc(1, 1),
        volume: 1,
    });
    assert_eq!(dup, Err(ExecError::DuplicateId { id: id(1) }));
    let missing = gv.execute(&Action::RemoveDroplet { id: id(9) });
    assert_eq!(missing, Err(ExecError::UnknownId { id: id(9) }));
    let far = gv.execute(&Action::MoveDroplet { id: id(1), location: loc(2, 2) });
    assert_eq!(far, Err(ExecError::MoveTooFar { id: id(1) }));
    let off = gv.execute(&Action::AddDroplet {
        id: id(5),
        location: loc(9, 9),
        dimensions: loc(1, 1),
        volume: 1,
    });
    assert_eq!(off, Err(ExecError::BadPlacement { id: id(5) }));
    add(&mut gv, 2, 2, 2, 1);
    let apart = gv.execute(&Action::Mix { in0: id(1), in1: id(2), out: id(3) });
    assert_eq!(apart, Err(ExecError::MixLocationMismatch { in0: id(1), in1: id(2) }));
}

#[test]
fn update_droplet_rewrites_the_id() {
    let mut gv = GridView::new_with_defaults(Grid::rectangle(3, 3));
    add(&mut gv, 1, 1, 1, 9);
    assert_eq!(gv.execute(&Action::UpdateDroplet { old_id: id(1), new_id: id(7) }), Ok(()));
    let infos = gv.droplet_info(None);
    assert_eq!(infos.len(), 1);
    assert_eq!(infos[0].id, id(7));
    assert_eq!(infos[0].volume, 9);
}

#[test]
fn route_one_finds_a_shortest_path_on_an_open_grid() {
    let grid = Grid::rectangle(3, 3);
    let d = Droplet {
        id: id(1),
        location: loc(0, 0),
        dimensions: loc(1, 1),
        volume: 1,
        destination: Some(loc(2, 2)),
        collision_group: 1,
    };
    let av = AvoidanceSet::new();
    let path = route_one(&d, 9, &grid, &av).expect("open grid must be routable");
    assert_eq!(path.len(), 5);
    assert_eq!(path[0], loc(0, 0));
    assert_eq!(path[4], loc(2, 2));
    for w in path.windows(2) {
        let dy = w[0].y.abs_diff(w[1].y);
        let dx = w[0].x.abs_diff(w[1].x);
        assert!(dy + dx <= 1);
    }
}

#[test]
fn route_one_respects_reservations() {
    let grid = Grid::rectangle(1, 3);
    let d = Droplet {
        id: id(1),
        location: loc(0, 0),
        dimensions: loc(1, 1),
        volume: 1,
        destination: Some(loc(0, 2)),
        collision_group: 1,
    };
    let mut av = AvoidanceSet::new();
    // another unit droplet stands at (0, 1) around tick 1: its inflated
    // footprint covers the whole corridor for ticks 0..=2, so no path fits
    av.avoid_node(&grid, Node { loc: loc(0, 1), t: 1 }, &loc(1, 1));
    assert!(av.collides(&Node { loc: loc(0, 0), t: 1 }));
    assert!(route_one(&d, 2, &grid, &av).is_none());
    // with an empty reservation the same search succeeds
    let free = AvoidanceSet::new();
    let path = route_one(&d, 20, &grid, &free).unwrap();
    assert_eq!(path[0], loc(0, 0));
    assert_eq!(*path.last().unwrap(), loc(0, 2));
}

#[test]
fn trivial_route_reaches_destination() {
    let mut gv = GridView::new_with_defaults(Grid::rectangle(3, 3));
    add(&mut gv, 1, 0, 0, 1);
    gv.droplets[0].destination = Some(loc(2, 2));
    let paths = gv.route().expect("an open grid must be routable");
    assert_eq!(paths.len(), 1);
    assert_eq!(paths[0].0, id(1));
    let path = &paths[0].1;
    assert_eq!(path.len(), 5);
    assert_eq!(path[0], loc(0, 0));
    assert_eq!(*path.last().unwrap(), loc(2, 2));
    for a in paths_to_actions(&paths) {
        assert_eq!(gv.execute(&a), Ok(()));
    }
    let infos = gv.droplet_info(None);
    assert_eq!(infos.len(), 1);
    assert_eq!(infos[0].location, loc(2, 2));
}

#[test]
fn two_droplets_cross_without_colliding() {
    let mut gv = GridView::new_with_defaults(Grid::rectangle(5, 5));
    add(&mut gv, 1, 0, 2, 1);
    add(&mut gv, 2, 2, 0, 1);
    gv.droplets[0].destination = Some(loc(4, 2));
    gv.droplets[1].destination = Some(loc(2, 4));
    assert!(gv.get_collision().is_none());
    assert!(gv.get_destination_collision().is_none());
    let paths = gv.route().expect("crossing on an open board must be routable");
    assert_eq!(paths.len(), 2);
    assert_eq!(paths[0].0, id(1));
    assert_eq!(paths[1].0, id(2));
    for a in paths_to_actions(&paths) {
        // every action applies, and in particular every Tick barrier finds
        // no collision
        assert_eq!(gv.execute(&a), Ok(()));
    }
    for info in gv.droplet_info(None) {
        if info.id == id(1) {
            assert_eq!(info.location, loc(4, 2));
        } else {
            assert_eq!(info.id, id(2));
            assert_eq!(info.location, loc(2, 4));
        }
    }
}

#[test]
fn parked_droplet_is_routed_around() {
    let mut gv = GridView::new_with_defaults(Grid::rectangle(3, 3));
    add(&mut gv, 1, 0, 0, 1);
    add(&mut gv, 2, 2, 0, 1);
    // droplet 1 stays parked at its own cell; droplet 2 must travel to the
    // far corner without entering the parked droplet's halo at any tick
    gv.droplets[1].destination = Some(loc(0, 2));
    let paths = gv.route().expect("a detour around the parked droplet exists");
    for a in paths_to_actions(&paths) {
        assert_eq!(gv.execute(&a), Ok(()));
    }
    let infos = gv.droplet_info(None);
    for info in infos {
        if info.id == id(1) {
            assert_eq!(info.location, loc(0, 0));
        } else {
            assert_eq!(info.location, loc(0, 2));
        }
    }
}

#[test]
fn translator_emits_moves_then_tick_per_tick() {
    let paths = vec![
        (id(1), vec![loc(0, 0), loc(0, 1), loc(0, 2)]),
        (id(2), vec![loc(2, 2)]),
    ];
    let acts = paths_to_actions(&paths);
    assert_eq!(acts.len(), 7);
    assert!(matches!(acts[0], Action::MoveDroplet { id: d, location } if d == id(1) && location == loc(0, 0)));
    assert!(matches!(acts[1], Action::MoveDroplet { id: d, location } if d == id(2) && location == loc(2, 2)));
    assert!(matches!(acts[2], Action::Tick));
    assert!(matches!(acts[3], Action::MoveDroplet { id: d, location } if d == id(1) && location == loc(0, 1)));
    assert!(matches!(acts[4], Action::Tick));
    assert!(matches!(acts[5], Action::MoveDroplet { id: d, location } if d == id(1) && location == loc(0, 2)));
    assert!(matches!(acts[6], Action::Tick));
}
