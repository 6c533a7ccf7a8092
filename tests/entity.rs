use heroesoftheswarm::entity::{Bullet, Swarm, SwarmMember, FIRE_COOLDOWN};
use heroesoftheswarm::geometry::{normalize, scaled_cosine, scaled_sine, turn_heading};
use heroesoftheswarm::swarm_language::{Formation, SwarmCommand};
use heroesoftheswarm::world::World;

#[test]
fn test_offset_calc() {
    let ooflist1: Vec<(i64, i64)> = Swarm::calculate_offsets(1_000);
    let ooflist2: Vec<(i64, i64)> = Swarm::calculate_offsets(2_500);
    println!("Offsets of radius 1.0:");
    for tuple in ooflist1.iter() {
        println!("{:?}", tuple);
    }
    println!("\nOffsets of radius 2.5:");
    for tuple in ooflist2.iter() {
        println!("{:?}", tuple);
    }
    assert_eq!(ooflist1.len(), 25);
    assert_eq!(ooflist1[0], (0, 0));
    assert_eq!(ooflist1[1], (1_000, 0));
    assert_eq!(ooflist1[2], (0, 1_000));
    assert_eq!(ooflist1[3], (-1_000, 0));
    assert_eq!(ooflist1[4], (0, -1_000));
    assert_eq!(ooflist2[5], (5_000, 0));
    assert_eq!(ooflist2[13], (7_500, 0));
}

#[test]
fn update_swarm() {
    let mut test_world: World = World::new(100_000, 100_000);
    let origin_x: i64 = 50_000;
    let origin_y: i64 = 50_000;
    let mut swarm = Swarm::new(origin_x, origin_y, 1);
    swarm.program.commands.clear();
    let num_steps: usize = 16;
    for i in 0..num_steps {
        swarm.program.commands.push(SwarmCommand::TURN(-45_000));
        swarm.program.commands.push(SwarmCommand::MOVE);
        println!("{:?} ", i);
    }
    println!("{:?}", swarm.program.commands);
    for _ in 0..num_steps {
        swarm.update(0, test_world.width, test_world.height, &mut test_world.bullets);
        println!("x: {}, y: {}, dir: {}", swarm.x, swarm.y, swarm.direction);
    }
    assert_eq!(swarm.x, origin_x);
    assert_eq!(swarm.y, origin_y);
    assert_eq!(swarm.direction, 0);
}

#[test]
fn test_world_bounds() {
    let mut test_world: World = World::new(10_000, 10_000);
    let mut swarm = Swarm::new(0, 0, 1);
    let swarm_id = 0;
    let turn_amt: i64 = -100_000;
    swarm.program.commands.push(SwarmCommand::TURN(turn_amt));
    swarm.program.commands.push(SwarmCommand::MOVE);
    for _ in 0..2 {
        swarm.update(swarm_id, test_world.width, test_world.height, &mut test_world.bullets);
        println!("x: {}, y: {}, dir: {}", swarm.x, swarm.y, swarm.direction);
    }
    assert!(swarm.direction - -turn_amt <= 0);
}

#[test]
fn update_bullet() {
    let mut bullet = Bullet::new(0, 0, 0, 0);
    bullet.direction = 90_000;
    bullet.update();
    assert!(bullet.x - 1_000 <= 0);
    assert!(bullet.y - 0 <= 0);
}

#[test]
fn test_bullets() {
    let mut world: World = World::new(10_000, 10_000);
    let swarm_id: usize = 0;
    world.ids.push(swarm_id);
    world.swarms.push(Swarm::new(5_000, 5_000, 6));
    world.swarms[0].program.commands = vec![SwarmCommand::FIRE];
    let (w, h) = (world.width, world.height);
    world.swarms[0].update(swarm_id, w, h, &mut world.bullets);
    assert_eq!(world.bullets.len(), 6);
}

#[test]
fn sine_values_are_exact() {
    assert_eq!(scaled_sine(90_000, 5_000), 5_000);
    assert_eq!(scaled_sine(0, 5_000), 0);
    assert_eq!(scaled_sine(45_000, 5_000), 3_529);
    assert_eq!(scaled_sine(225_000, 5_000), -3_529);
    assert_eq!(scaled_cosine(0, 5_000), 5_000);
    assert_eq!(scaled_cosine(180_000, 5_000), -5_000);
    assert_eq!(scaled_cosine(-90_000, 5_000), 0);
    assert_eq!(turn_heading(10_000, -30_000), 340_000);
    assert_eq!(turn_heading(350_000, 20_000), 10_000);
    assert_eq!(normalize(-1), 359_999);
}

#[test]
fn volley_then_cooldown() {
    let mut swarm = Swarm::new(500_000, 500_000, 6);
    swarm.direction = 45_000;
    swarm.program.commands = vec![SwarmCommand::FIRE];
    let mut bullets = Vec::new();
    swarm.update(7, 1_000_000, 1_000_000, &mut bullets);
    assert_eq!(bullets.len(), 6);
    for (b, m) in bullets.iter().zip(swarm.members.iter()) {
        assert_eq!(b.owner, 7);
        assert_eq!(b.direction, 45_000);
        assert_eq!(b.x, 500_000 + m.x);
        assert_eq!(b.y, 500_000 + m.y);
        assert_eq!(b.duration, 90);
    }
    assert_eq!(swarm.fire_cooldown, FIRE_COOLDOWN - 1);
    for _ in 0..9 {
        swarm.update(7, 1_000_000, 1_000_000, &mut bullets);
        assert_eq!(bullets.len(), 6);
    }
    assert_eq!(swarm.fire_cooldown, 0);
    swarm.update(7, 1_000_000, 1_000_000, &mut bullets);
    assert_eq!(bullets.len(), 12);
}

#[test]
fn empty_program_changes_nothing() {
    let mut swarm = Swarm::new(500_000, 500_000, 3);
    swarm.program.commands.clear();
    swarm.fire_cooldown = 4;
    let mut bullets = Vec::new();
    swarm.update(1, 1_000_000, 1_000_000, &mut bullets);
    assert_eq!(swarm.fire_cooldown, 4);
    assert_eq!((swarm.x, swarm.y, swarm.direction), (500_000, 500_000, 0));
    assert!(bullets.is_empty());
}

#[test]
fn move_turns_back_at_edge() {
    let mut swarm = Swarm::new(5_000, 500_000, 1);
    swarm.direction = 30_000;
    swarm.program.commands = vec![SwarmCommand::MOVE];
    let mut bullets = Vec::new();
    swarm.update(1, 1_000_000, 1_000_000, &mut bullets);
    assert_eq!(swarm.direction, 330_000);
    assert_eq!(swarm.x, 5_000 + scaled_cosine(330_000, 5_000));
    assert_eq!(swarm.y, 500_000 - scaled_sine(330_000, 5_000));
}

#[test]
fn turn_updates_members_and_counter_wraps() {
    let mut swarm = Swarm::new(500_000, 500_000, 2);
    swarm.program.commands = vec![SwarmCommand::TURN(-30_000), SwarmCommand::NOOP];
    let mut bullets = Vec::new();
    swarm.update(1, 1_000_000, 1_000_000, &mut bullets);
    assert_eq!(swarm.direction, 330_000);
    assert!(swarm.members.iter().all(|m| m.direction == 330_000));
    assert_eq!(swarm.program.program_counter, 1);
    swarm.update(1, 1_000_000, 1_000_000, &mut bullets);
    assert_eq!(swarm.program.program_counter, 0);
}

#[test]
fn formations_place_members() {
    let mut swarm = Swarm::new(500_000, 500_000, 3);
    swarm.program.commands = vec![SwarmCommand::FORMATION(Formation::SPREAD)];
    let mut bullets = Vec::new();
    swarm.update(1, 1_000_000, 1_000_000, &mut bullets);
    let n = swarm.offsets.len();
    for (i, m) in swarm.members.iter().enumerate() {
        assert_eq!((m.x, m.y), swarm.offsets[n - 1 - i]);
    }
    assert_eq!(swarm.formation_cooldown, 29);
    swarm.program.commands = vec![SwarmCommand::FORMATION(Formation::GATHER)];
    swarm.program.program_counter = 0;
    swarm.update(1, 1_000_000, 1_000_000, &mut bullets);
    assert_eq!((swarm.members[0].x, swarm.members[0].y), swarm.offsets[n - 1]);
    swarm.formation_cooldown = 0;
    swarm.update(1, 1_000_000, 1_000_000, &mut bullets);
    for (i, m) in swarm.members.iter().enumerate() {
        assert_eq!((m.x, m.y), swarm.offsets[i]);
    }
}

#[test]
fn swarm_construction() {
    let swarm = Swarm::new(1, 2, 10).with_color((1, 2, 3));
    assert_eq!(swarm.members.len(), 10);
    assert_eq!(swarm.members[0], SwarmMember::new(0, 0));
    assert_eq!(swarm.members[1], SwarmMember { x: 30_000, y: 0, direction: 0, health: 5 });
    assert_eq!(swarm.color, (1, 2, 3));
    assert_eq!(swarm.program.commands.len(), 9);
    let mut s = swarm;
    s.add_experience(&1_000);
    s.add_experience(&i64::MAX);
    assert_eq!(s.experience, i64::MAX);
}

#[test]
fn take_hit_removes_last_health() {
    let mut swarm = Swarm::new(0, 0, 3);
    swarm.members[0].health = 1;
    assert!(!swarm.take_hit(1));
    assert_eq!(swarm.members[1].health, 4);
    assert!(swarm.take_hit(0));
    assert_eq!(swarm.members.len(), 2);
}

#[test]
fn octagon_closes_near_the_corner() {
    let mut swarm = Swarm::new(25_001, 25_001, 1);
    swarm.program.commands = vec![SwarmCommand::TURN(-45_000), SwarmCommand::MOVE];
    let mut bullets = Vec::new();
    for _ in 0..16 {
        swarm.update(0, 100_000, 100_000, &mut bullets);
    }
    assert_eq!((swarm.x, swarm.y, swarm.direction), (25_001, 25_001, 0));
    assert_eq!(swarm.program.program_counter, 0);
}
