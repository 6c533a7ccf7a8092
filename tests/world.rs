use heroesoftheswarm::entity::{Bullet, Swarm, INITIAL_SWARM_SIZE};
use heroesoftheswarm::rpc::{CompileResult, Configuration, Response, ResponseMessage};
use heroesoftheswarm::server::GameServer;
use heroesoftheswarm::swarm_language::{SwarmCommand, SwarmProgram};
use heroesoftheswarm::world::{World, KILL_REWARD, SPAWN_MARGIN};

/// A world with two idle swarms of one member each, at the given centres.
fn two_idle_swarms() -> World {
    let mut world = World::new(1_000_000, 1_000_000);
    for (id, x) in [(1usize, 200_000i64), (2usize, 500_000i64)] {
        let mut s = Swarm::new(x, 500_000, 1);
        s.program.commands.clear();
        world.ids.push(id);
        world.swarms.push(s);
    }
    world
}

#[test]
fn initialize_world() {
    let world = World::new(1_000_000, 1_000_000);
    assert!(world.swarms.is_empty());
    assert!(world.bullets.is_empty());
}

#[test]
fn expired_bullet_is_removed() {
    let mut world = World::new(1_000_000, 1_000_000);
    let mut b = Bullet::new(9, 100_000, 100_000, 0);
    b.duration = 1;
    world.bullets.push(b);
    world.bullets.push(Bullet::new(9, 300_000, 300_000, 0));
    world.update();
    assert_eq!(world.bullets.len(), 1);
    assert_eq!(world.bullets[0].duration, 89);
    assert_eq!(world.bullets[0].x, 305_000);
}

#[test]
fn hit_on_other_swarm_costs_one_health() {
    let mut world = two_idle_swarms();
    world.bullets.push(Bullet::new(1, 495_000, 500_000, 0));
    world.update();
    assert_eq!(world.swarms[1].members[0].health, 4);
    assert!(world.bullets.is_empty());
    assert_eq!(world.swarms[0].experience, 0);
}

#[test]
fn bullet_over_own_swarm_does_nothing() {
    let mut world = two_idle_swarms();
    world.bullets.push(Bullet::new(2, 495_000, 500_000, 0));
    world.update();
    assert_eq!(world.swarms[1].members[0].health, 5);
    assert_eq!(world.bullets.len(), 1);
    assert_eq!(world.bullets[0].x, 500_000);
}

#[test]
fn kill_removes_member_and_pays_owner() {
    let mut world = two_idle_swarms();
    world.swarms[1].members[0].health = 1;
    world.bullets.push(Bullet::new(1, 495_000, 500_000, 0));
    world.update();
    assert!(world.swarms[1].members.is_empty());
    assert_eq!(world.swarms[0].experience, KILL_REWARD);
    assert!(world.bullets.is_empty());
}

#[test]
fn reward_for_departed_owner_is_dropped() {
    let mut world = two_idle_swarms();
    world.swarms[1].members[0].health = 1;
    world.bullets.push(Bullet::new(42, 495_000, 500_000, 0));
    world.update();
    assert!(world.swarms[1].members.is_empty());
    assert_eq!(world.swarms[0].experience, 0);
    assert_eq!(world.swarms[1].experience, 0);
}

#[test]
fn fired_bullets_can_hit_in_the_same_tick() {
    let mut world = two_idle_swarms();
    world.swarms[0].x = 490_000;
    world.swarms[0].program.commands = vec![SwarmCommand::FIRE];
    world.update();
    assert_eq!(world.swarms[1].members[0].health, 4);
    assert!(world.bullets.is_empty());
}

#[test]
fn remove_player_clears_swarm_and_bullets() {
    let mut world = two_idle_swarms();
    world.bullets.push(Bullet::new(2, 10_000, 10_000, 0));
    world.bullets.push(Bullet::new(1, 20_000, 20_000, 0));
    world.bullets.push(Bullet::new(2, 30_000, 30_000, 0));
    world.bullets.push(Bullet::new(2, 40_000, 40_000, 0));
    world.remove_player(2);
    assert!(world.bullets.iter().all(|b| b.owner != 2));
    assert_eq!(world.bullets.len(), 1);
    let state = world.get_state();
    assert!(state.swarms.iter().all(|s| s.id != 2));
    assert_eq!(state.swarms.len(), 1);
    world.remove_player(77);
    assert_eq!(world.swarms.len(), 1);
}

#[test]
fn add_player_places_swarm_in_spawn_range() {
    let mut world = World::new(1_600_000, 900_000);
    assert!(world.add_player(3));
    assert!(!world.add_player(3));
    assert!(world.add_player(4));
    assert_eq!(world.ids, vec![3, 4]);
    for s in world.swarms.iter() {
        assert!(SPAWN_MARGIN <= s.x && s.x <= 1_600_000 - SPAWN_MARGIN);
        assert!(SPAWN_MARGIN <= s.y && s.y <= 900_000 - SPAWN_MARGIN);
        assert_eq!(s.members.len(), INITIAL_SWARM_SIZE);
    }
    let mut small = World::new(60_000, 40_000);
    assert!(small.add_player(1));
    assert_eq!((small.swarms[0].x, small.swarms[0].y), (30_000, 20_000));
}

#[test]
fn update_program_resets_counter() {
    let mut world = two_idle_swarms();
    let mut p = SwarmProgram::new(vec![SwarmCommand::NOOP, SwarmCommand::MOVE]);
    p.program_counter = 1;
    assert!(world.update_program(2, p));
    assert_eq!(world.swarms[1].program.program_counter, 0);
    assert_eq!(world.swarms[1].program.commands.len(), 2);
    assert!(!world.update_program(9, SwarmProgram::new(vec![])));
}

#[test]
fn snapshot_copies_visible_fields() {
    let mut world = two_idle_swarms();
    world.swarms[0].experience = 17;
    world.bullets.push(Bullet::new(1, 5, 6, 7));
    let state = world.get_state();
    assert_eq!(state.swarms[0].id, 1);
    assert_eq!(state.swarms[0].x, 200_000);
    assert_eq!(state.swarms[0].experience, 17);
    assert_eq!(state.swarms[1].members, world.swarms[1].members);
    assert_eq!(state.bullets, world.bullets);
}

#[test]
fn compile_request_installs_or_reports() {
    let mut world = two_idle_swarms();
    let ok = GameServer::handle_compile(&mut world, 1, "FIRE\nMOVE");
    assert_eq!(ok.message_type, "c");
    match ok.message {
        ResponseMessage::COMPILE(c) => {
            assert!(c.success);
            assert_eq!(c.error, "");
        }
        _ => panic!("wrong message"),
    }
    assert_eq!(
        world.swarms[0].program.commands,
        vec![SwarmCommand::FIRE, SwarmCommand::MOVE]
    );
    let bad = GameServer::handle_compile(&mut world, 1, "TURN");
    match bad.message {
        ResponseMessage::COMPILE(c) => {
            assert!(!c.success);
            assert_eq!(c.error, "No parameters found for TURN.");
        }
        _ => panic!("wrong message"),
    }
    assert_eq!(world.swarms[0].program.commands.len(), 2);
}

#[test]
fn responses_carry_their_tags() {
    let world = two_idle_swarms();
    assert_eq!(GameServer::handle_viewport(&world).message_type, "w");
    let hello = GameServer::welcome(5);
    assert_eq!(hello.message_type, "i");
    match hello.message {
        ResponseMessage::CONFIG(c) => assert_eq!(c.player_id, 5),
        _ => panic!("wrong message"),
    }
    let r = Response::new(ResponseMessage::COMPILE(CompileResult::new(false, "x".into())));
    assert_eq!(r.message_type, "c");
    assert_eq!(Configuration::new(3).player_id, 3);
    GameServer::start();
}

#[test]
fn with_capacity_starts_empty() {
    let world = World::with_capacity(100, 200, 8);
    assert_eq!((world.width, world.height), (100, 200));
    assert!(world.ids.is_empty());
}

#[test]
fn tick_delay_subtracts_last_tick() {
    assert_eq!(GameServer::tick_delay(16_666, 1_000), 15_666);
    assert_eq!(GameServer::tick_delay(16_666, 20_000), 0);
    assert_eq!(GameServer::tick_delay(16_666, 16_666), 0);
}
