//! Swarms, their members, and bullets, with the per-tick step of each.
use crate::geometry::{
    cosine, is_heading, normalize, normalized, scaled_cosine, scaled_sine, sine, turn_heading,
};
use crate::swarm_language::{Formation, SwarmCommand, SwarmProgram};
use vstd::prelude::*;

verus! {

/// The number of members of a new player's swarm.
pub const INITIAL_SWARM_SIZE: usize = 10;

/// The distance a swarm moves in one tick.
pub const SWARM_SPEED: i64 = 5_000;

/// A swarm this close to an edge of the playfield turns back.
pub const EDGE_MARGIN: i64 = 10_000;

/// Ticks between two volleys of one swarm.
pub const FIRE_COOLDOWN: i64 = 10;

/// Ticks between two formation changes of one swarm.
pub const FORMATION_COOLDOWN: i64 = 30;

/// The health of a new member.
pub const MEMBER_HEALTH: i32 = 5;

/// The radius step between two shells of the offsets table.
pub const OFFSET_RADIUS: i64 = 30_000;

/// The number of entries of the offsets table: one centre and three shells
/// of 4, 8 and 12 places.
pub const NUM_OFFSETS: usize = 25;

/// The distance a bullet moves in one tick.
pub const BULLET_SPEED: i64 = 5_000;

/// The number of ticks a bullet lives.
pub const BULLET_LIFETIME: i64 = 90;

/// `v`, saturated to the range of `i64`.
pub open spec fn clamp(v: int) -> i64 {
    if v < i64::MIN {
        i64::MIN
    } else if v > i64::MAX {
        i64::MAX
    } else {
        v as i64
    }
}

/// `a + b`, saturated to the range of `i64`.
pub fn add_clamped(a: i64, b: i64) -> (r: i64)
    ensures
        r == clamp(a + b),
{
    let s: i128 = a as i128 + b as i128;
    if s > i64::MAX as i128 {
        i64::MAX
    } else if s < i64::MIN as i128 {
        i64::MIN
    } else {
        s as i64
    }
}

/// `a - b`, saturated to the range of `i64`.
pub fn sub_clamped(a: i64, b: i64) -> (r: i64)
    ensures
        r == clamp(a - b),
{
    let s: i128 = a as i128 - b as i128;
    if s > i64::MAX as i128 {
        i64::MAX
    } else if s < i64::MIN as i128 {
        i64::MIN
    } else {
        s as i64
    }
}

/// A member of a swarm.
#[derive(Clone, Copy, Debug, PartialEq, Eq, Structural)]
pub struct SwarmMember {
    /// Offset from the swarm's centre along x.
    pub x: i64,
    /// Offset from the swarm's centre along y.
    pub y: i64,
    /// Heading, in thousandths of a degree.
    pub direction: i64,
    /// Remaining hits; a member with none left is removed.
    pub health: i32,
}

impl SwarmMember {
    /// A member at the given offset, facing heading 0, at full health.
    pub fn new(x: i64, y: i64) -> (r: Self)
        ensures
            r == (SwarmMember { x, y, direction: 0, health: MEMBER_HEALTH }),
    {
        SwarmMember { x, y, direction: 0, health: MEMBER_HEALTH }
    }
}

/// A bullet in flight.
#[derive(Clone, Copy, Debug, PartialEq, Eq, Structural)]
pub struct Bullet {
    /// The id of the swarm that fired it; it never harms that swarm.
    pub owner: usize,
    /// Position along x.
    pub x: i64,
    /// Position along y.
    pub y: i64,
    /// Heading, in thousandths of a degree.
    pub direction: i64,
    /// Ticks left to live.
    pub duration: i64,
}

/// A bullet one tick later: moved along its heading, a tick shorter-lived.
pub open spec fn advanced(b: Bullet) -> Bullet {
    Bullet {
        x: clamp(b.x + cosine(b.direction as int, BULLET_SPEED as int)),
        y: clamp(b.y - sine(b.direction as int, BULLET_SPEED as int)),
        duration: (b.duration - 1) as i64,
        ..b
    }
}

impl Bullet {
    /// A new bullet with the full lifetime.
    pub fn new(owner: usize, x: i64, y: i64, direction: i64) -> (r: Self)
        ensures
            r == (Bullet { owner, x, y, direction, duration: BULLET_LIFETIME }),
    {
        Bullet { owner, x, y, direction, duration: BULLET_LIFETIME }
    }

    /// Performs one tick.
    pub fn update(&mut self)
        requires
            old(self).duration > i64::MIN,
        ensures
            *final(self) == advanced(*old(self)),
    {
        let dx = scaled_cosine(self.direction, BULLET_SPEED);
        let dy = scaled_sine(self.direction, BULLET_SPEED);
        self.x = add_clamped(self.x, dx);
        self.y = sub_clamped(self.y, dy);
        self.duration = self.duration - 1;
    }
}

/// What a swarm is, as plain values.
pub struct SwarmView {
    pub x: i64,
    pub y: i64,
    pub direction: i64,
    pub members: Seq<SwarmMember>,
    pub offsets: Seq<(i64, i64)>,
    pub color: (u8, u8, u8),
    pub experience: i64,
    pub fire_cooldown: i64,
    pub formation_cooldown: i64,
    pub commands: Seq<SwarmCommand>,
    pub program_counter: int,
}

impl SwarmView {
    /// The invariant of a swarm.
    pub open spec fn wf(self) -> bool {
        &&& is_heading(self.direction as int)
        &&& (self.commands.len() == 0 || 0 <= self.program_counter < self.commands.len())
        &&& self.members.len() <= self.offsets.len()
        &&& forall|i: int|
            0 <= i < self.members.len() ==> (#[trigger] self.members[i]).health > 0 && is_heading(
                self.members[i].direction as int,
            )
        &&& self.fire_cooldown >= 0
        &&& self.formation_cooldown >= 0
        &&& self.experience >= 0
    }
}

/// Whether a position lies within the edge margin of the playfield.
pub open spec fn near_edge(x: int, y: int, width: int, height: int) -> bool {
    ||| x - EDGE_MARGIN <= 0
    ||| x + EDGE_MARGIN >= width
    ||| y - EDGE_MARGIN <= 0
    ||| y + EDGE_MARGIN >= height
}

/// `MOVE`: turn back near an edge, then advance along the heading.
pub open spec fn moved(s: SwarmView, width: int, height: int) -> SwarmView {
    let d = if near_edge(s.x as int, s.y as int, width, height) {
        normalized(-s.direction)
    } else {
        s.direction as int
    };
    SwarmView {
        x: clamp(s.x + cosine(d, SWARM_SPEED as int)),
        y: clamp(s.y - sine(d, SWARM_SPEED as int)),
        direction: d as i64,
        ..s
    }
}

/// A member turned by `delta`.
pub open spec fn turned_member(m: SwarmMember, delta: int) -> SwarmMember {
    SwarmMember { direction: normalized(m.direction + delta) as i64, ..m }
}

/// `TURN(delta)`: the swarm and each member turn by `delta`.
pub open spec fn turned(s: SwarmView, delta: int) -> SwarmView {
    SwarmView {
        direction: normalized(s.direction + delta) as i64,
        members: s.members.map_values(|m: SwarmMember| turned_member(m, delta)),
        ..s
    }
}

/// The bullet that member `m` of a swarm at `(x, y)` with heading `d` fires.
pub open spec fn shot(owner: usize, x: i64, y: i64, d: i64, m: SwarmMember) -> Bullet {
    Bullet { owner, x: clamp(x + m.x), y: clamp(y + m.y), direction: d, duration: BULLET_LIFETIME }
}

/// One bullet per member, in member order.
pub open spec fn volley(s: SwarmView, owner: usize) -> Seq<Bullet> {
    s.members.map_values(|m: SwarmMember| shot(owner, s.x, s.y, s.direction, m))
}

/// The offsets-table entry that member `i` takes in formation `kind`.
pub open spec fn formation_slot(s: SwarmView, kind: Formation, i: int) -> (i64, i64) {
    match kind {
        Formation::GATHER => s.offsets[i],
        Formation::SPREAD => s.offsets[s.offsets.len() - 1 - i],
    }
}

/// Members moved to the offsets of formation `kind`.
pub open spec fn formed(s: SwarmView, kind: Formation) -> SwarmView {
    SwarmView {
        members: s.members.map(
            |i: int, m: SwarmMember|
                SwarmMember { x: formation_slot(s, kind, i).0, y: formation_slot(s, kind, i).1, ..m },
        ),
        ..s
    }
}

/// The command at the counter, run: the new state and the bullets fired.
pub open spec fn executed(s: SwarmView, owner: usize, width: int, height: int) -> (
    SwarmView,
    Seq<Bullet>,
) {
    match s.commands[s.program_counter] {
        SwarmCommand::MOVE => (moved(s, width, height), seq![]),
        SwarmCommand::FIRE => if s.fire_cooldown == 0 {
            (SwarmView { fire_cooldown: FIRE_COOLDOWN, ..s }, volley(s, owner))
        } else {
            (s, seq![])
        },
        SwarmCommand::TURN(delta) => (turned(s, delta as int), seq![]),
        SwarmCommand::FORMATION(kind) => if s.formation_cooldown == 0 {
            (SwarmView { formation_cooldown: FORMATION_COOLDOWN, ..formed(s, kind) }, seq![])
        } else {
            (s, seq![])
        },
        SwarmCommand::NOOP => (s, seq![]),
    }
}

/// A cooldown one tick later, floored at zero.
pub open spec fn cooled(c: i64) -> i64 {
    if c > 0 {
        (c - 1) as i64
    } else {
        0
    }
}

/// One tick of a swarm: the command at the counter runs, the counter moves on
/// cyclically and both cooldowns count down. An empty program changes nothing.
pub open spec fn step(s: SwarmView, owner: usize, width: int, height: int) -> (
    SwarmView,
    Seq<Bullet>,
) {
    if s.commands.len() == 0 {
        (s, seq![])
    } else {
        let (t, fired) = executed(s, owner, width, height);
        (
            SwarmView {
                program_counter: (s.program_counter + 1) % (s.commands.len() as int),
                fire_cooldown: cooled(t.fire_cooldown),
                formation_cooldown: cooled(t.formation_cooldown),
                ..t
            },
            fired,
        )
    }
}

/// Entry `n` of the offsets table for base radius `radius`: the centre, then
/// shell `k` for `k` in 1..=3, whose `4k` places lie evenly on the circle of
/// radius `k * radius`, starting on the x axis.
pub open spec fn offset_entry(n: int, radius: int) -> (i64, i64) {
    let (k, j) = if n == 0 {
        (0int, 0int)
    } else if n <= 4 {
        (1int, n - 1)
    } else if n <= 12 {
        (2int, n - 5)
    } else {
        (3int, n - 13)
    };
    if k == 0 {
        (0i64, 0i64)
    } else {
        let a = j * 90_000 / k;
        (cosine(a, k * radius) as i64, sine(a, k * radius) as i64)
    }
}

/// The whole offsets table for base radius `radius`.
pub open spec fn offset_table(radius: int) -> Seq<(i64, i64)> {
    Seq::new(NUM_OFFSETS as nat, |n: int| offset_entry(n, radius))
}

/// The program of a new swarm: four times a move and a turn of ten
/// degrees, then a volley.
pub open spec fn default_commands() -> Seq<SwarmCommand> {
    seq![
        SwarmCommand::MOVE,
        SwarmCommand::TURN(10_000),
        SwarmCommand::MOVE,
        SwarmCommand::TURN(10_000),
        SwarmCommand::MOVE,
        SwarmCommand::TURN(10_000),
        SwarmCommand::MOVE,
        SwarmCommand::TURN(10_000),
        SwarmCommand::FIRE,
    ]
}

/// `n` members at full health on the first `n` entries of the table.
pub open spec fn initial_members(offsets: Seq<(i64, i64)>, n: int) -> Seq<SwarmMember> {
    offsets.take(n).map_values(
        |o: (i64, i64)| SwarmMember { x: o.0, y: o.1, direction: 0, health: MEMBER_HEALTH },
    )
}

/// A new swarm at `(x, y)` with `n` members: heading 0, black, no
/// experience, no cooldown, the default program at its start.
pub open spec fn new_swarm(x: i64, y: i64, n: int) -> SwarmView {
    SwarmView {
        x,
        y,
        direction: 0,
        members: initial_members(offset_table(OFFSET_RADIUS as int), n),
        offsets: offset_table(OFFSET_RADIUS as int),
        color: (0, 0, 0),
        experience: 0,
        fire_cooldown: 0,
        formation_cooldown: 0,
        commands: default_commands(),
        program_counter: 0,
    }
}

/// A player's swarm.
#[derive(Debug)]
pub struct Swarm {
    /// Position of the centre along x.
    pub x: i64,
    /// Position of the centre along y.
    pub y: i64,
    /// Heading, in thousandths of a degree.
    pub direction: i64,
    /// The living members.
    pub members: Vec<SwarmMember>,
    /// The places that formations assign to members.
    pub offsets: Vec<(i64, i64)>,
    /// Color of the swarm.
    pub color: (u8, u8, u8),
    /// Experience gained by the swarm.
    pub experience: i64,
    /// Ticks until the swarm may fire again.
    pub fire_cooldown: i64,
    /// Ticks until the swarm may change formation again.
    pub formation_cooldown: i64,
    /// The program that drives the swarm.
    pub program: SwarmProgram,
}

impl View for Swarm {
    type V = SwarmView;

    open spec fn view(&self) -> SwarmView {
        SwarmView {
            x: self.x,
            y: self.y,
            direction: self.direction,
            members: self.members@,
            offsets: self.offsets@,
            color: self.color,
            experience: self.experience,
            fire_cooldown: self.fire_cooldown,
            formation_cooldown: self.formation_cooldown,
            commands: self.program.commands@,
            program_counter: self.program.program_counter as int,
        }
    }
}


/// One tick keeps a swarm well formed.
pub proof fn lemma_step_wf(s: SwarmView, owner: usize, width: int, height: int)
    requires
        s.wf(),
    ensures
        step(s, owner, width, height).0.wf(),
{
    if s.commands.len() > 0 {
        let t = executed(s, owner, width, height).0;
        match s.commands[s.program_counter] {
            SwarmCommand::MOVE => {
                crate::geometry::lemma_normalized_heading(-s.direction);
            },
            SwarmCommand::TURN(delta) => {
                crate::geometry::lemma_normalized_heading(s.direction + delta);
                assert forall|i: int| 0 <= i < t.members.len() implies (#[trigger] t.members[i]).health
                    > 0 && is_heading(t.members[i].direction as int) by {
                    crate::geometry::lemma_normalized_heading(s.members[i].direction + delta);
                }
            },
            SwarmCommand::FORMATION(kind) => {
                if s.formation_cooldown == 0 {
                    assert forall|i: int| 0 <= i < t.members.len() implies (#[trigger] t.members[i]).health
                        > 0 && is_heading(t.members[i].direction as int) by {
                        assert(t.members[i].health == s.members[i].health);
                    }
                }
            },
            _ => {},
        }
        vstd::arithmetic::div_mod::lemma_mod_bound(s.program_counter + 1, s.commands.len() as int);
    }
}

/// `s` with element `i` replaced by the last one, and the last one dropped.
pub open spec fn swap_removed<T>(s: Seq<T>, i: int) -> Seq<T> {
    s.update(i, s.last()).drop_last()
}

/// Member `j` of `s` loses one health, and is removed when none is left.
pub open spec fn damaged(s: SwarmView, j: int) -> SwarmView {
    let m = s.members[j];
    if m.health - 1 == 0 {
        SwarmView { members: swap_removed(s.members, j), ..s }
    } else {
        SwarmView { members: s.members.update(j, SwarmMember { health: (m.health - 1) as i32, ..m }), ..s }
    }
}

/// A swarm after `n` ticks.
pub open spec fn steps(s: SwarmView, owner: usize, width: int, height: int, n: nat) -> SwarmView
    decreases n,
{
    if n == 0 {
        s
    } else {
        steps(step(s, owner, width, height).0, owner, width, height, (n - 1) as nat)
    }
}

/// However many ticks a swarm runs, its program stays the same and, when it
/// is not empty, the program counter stays within it.
pub proof fn lemma_counter_stays_in_program(s: SwarmView, owner: usize, width: int, height: int, n: nat)
    requires
        s.wf(),
    ensures
        steps(s, owner, width, height, n).wf(),
        steps(s, owner, width, height, n).commands == s.commands,
        s.commands.len() > 0 ==> 0 <= steps(s, owner, width, height, n).program_counter
            < s.commands.len(),
    decreases n,
{
    if n > 0 {
        lemma_step_wf(s, owner, width, height);
        lemma_counter_stays_in_program(step(s, owner, width, height).0, owner, width, height, (n - 1) as nat);
    }
}

/// A `FIRE` step with the fire cooldown at zero fires exactly one bullet per
/// member, each owned by the swarm, leaving from the member's place along
/// the swarm's heading, and starts the cooldown; while the cooldown runs, a
/// `FIRE` step fires nothing and the cooldown counts down by one.
pub proof fn lemma_fire_volley(s: SwarmView, owner: usize, width: int, height: int)
    requires
        s.wf(),
        s.commands.len() > 0,
        s.commands[s.program_counter] == SwarmCommand::FIRE,
    ensures
        s.fire_cooldown == 0 ==> {
            let (t, fired) = step(s, owner, width, height);
            &&& fired.len() == s.members.len()
            &&& forall|i: int|
                0 <= i < fired.len() ==> (#[trigger] fired[i]).owner == owner && fired[i].direction
                    == s.direction && fired[i].x == clamp(s.x + s.members[i].x) && fired[i].y
                    == clamp(s.y + s.members[i].y)
            &&& t.fire_cooldown == FIRE_COOLDOWN - 1
        },
        s.fire_cooldown > 0 ==> {
            let (t, fired) = step(s, owner, width, height);
            &&& fired.len() == 0
            &&& t.fire_cooldown == s.fire_cooldown - 1
        },
{
}

/// A `TURN` then a `MOVE` away from the edges: the heading turns by
/// `delta`, then the centre advances one step along the new heading.
proof fn lemma_turn_then_move(s: SwarmView, owner: usize, width: int, height: int, delta: i64)
    requires
        s.wf(),
        s.commands == seq![SwarmCommand::TURN(delta), SwarmCommand::MOVE],
        s.program_counter == 0,
        EDGE_MARGIN < s.x < width - EDGE_MARGIN,
        EDGE_MARGIN < s.y < height - EDGE_MARGIN,
        width <= i64::MAX,
        height <= i64::MAX,
    ensures
        ({
            let t = steps(s, owner, width, height, 2);
            &&& t.wf()
            &&& t.commands == s.commands
            &&& t.program_counter == 0
            &&& t.direction == normalized(s.direction + delta)
            &&& t.x == s.x + cosine(t.direction as int, SWARM_SPEED as int)
            &&& t.y == s.y - sine(t.direction as int, SWARM_SPEED as int)
        }),
{
    let s1 = step(s, owner, width, height).0;
    lemma_step_wf(s, owner, width, height);
    lemma_step_wf(s1, owner, width, height);
    crate::geometry::lemma_normalized_heading(s.direction + delta);
    crate::geometry::lemma_sine_bounds(s1.direction as int, SWARM_SPEED as int);
    assert(steps(s, owner, width, height, 2) == step(s1, owner, width, height).0) by {
        assert(steps(s1, owner, width, height, 1) == steps(step(s1, owner, width, height).0, owner, width, height, 0));
    }
}

/// Eight pairs of a turn by -45 degrees and a move, from heading 0 and far
/// enough from every edge, trace a closed octagon: the swarm ends where it
/// started, at heading 0.
pub proof fn lemma_closed_octagon(s: SwarmView, owner: usize, width: int, height: int)
    requires
        s.wf(),
        s.commands == seq![SwarmCommand::TURN(-45_000i64), SwarmCommand::MOVE],
        s.program_counter == 0,
        s.direction == 0,
        25_000 < s.x < width - 25_000,
        25_000 < s.y < height - 25_000,
        width <= i64::MAX,
        height <= i64::MAX,
    ensures
        steps(s, owner, width, height, 16).x == s.x,
        steps(s, owner, width, height, 16).y == s.y,
        steps(s, owner, width, height, 16).direction == 0,
{
    let v = SWARM_SPEED as int;
    crate::geometry::lemma_sine_eighths();
    let t0 = s;
    lemma_turn_then_move(t0, owner, width, height, -45_000i64);
    let t1 = steps(t0, owner, width, height, 2);
    lemma_turn_then_move(t1, owner, width, height, -45_000i64);
    let t2 = steps(t1, owner, width, height, 2);
    lemma_turn_then_move(t2, owner, width, height, -45_000i64);
    let t3 = steps(t2, owner, width, height, 2);
    lemma_turn_then_move(t3, owner, width, height, -45_000i64);
    let t4 = steps(t3, owner, width, height, 2);
    lemma_turn_then_move(t4, owner, width, height, -45_000i64);
    let t5 = steps(t4, owner, width, height, 2);
    lemma_turn_then_move(t5, owner, width, height, -45_000i64);
    let t6 = steps(t5, owner, width, height, 2);
    lemma_turn_then_move(t6, owner, width, height, -45_000i64);
    let t7 = steps(t6, owner, width, height, 2);
    lemma_turn_then_move(t7, owner, width, height, -45_000i64);
    let t8 = steps(t7, owner, width, height, 2);
    assert(t1.direction == 315_000);
    assert(t2.direction == 270_000);
    assert(t3.direction == 225_000);
    assert(t4.direction == 180_000);
    assert(t5.direction == 135_000);
    assert(t6.direction == 90_000);
    assert(t7.direction == 45_000);
    assert(t8.direction == 0);
    crate::geometry::lemma_opposite_heading(135_000, v);
    crate::geometry::lemma_opposite_heading(90_000, v);
    crate::geometry::lemma_opposite_heading(45_000, v);
    crate::geometry::lemma_opposite_heading(0, v);
    lemma_steps_add(s, owner, width, height, 2, 2);
    lemma_steps_add(s, owner, width, height, 4, 2);
    lemma_steps_add(s, owner, width, height, 6, 2);
    lemma_steps_add(s, owner, width, height, 8, 2);
    lemma_steps_add(s, owner, width, height, 10, 2);
    lemma_steps_add(s, owner, width, height, 12, 2);
    lemma_steps_add(s, owner, width, height, 14, 2);
}

proof fn lemma_steps_add(s: SwarmView, owner: usize, width: int, height: int, a: nat, b: nat)
    ensures
        steps(s, owner, width, height, a + b) == steps(steps(s, owner, width, height, a), owner, width, height, b),
    decreases a,
{
    if a > 0 {
        lemma_steps_add(step(s, owner, width, height).0, owner, width, height, (a - 1) as nat, b);
        assert((a + b - 1) as nat == (a - 1) as nat + b);
    }
}

/// Every bullet fired in a step has the full lifetime.
pub proof fn lemma_step_fires_fresh(s: SwarmView, owner: usize, width: int, height: int)
    ensures
        forall|i: int|
            0 <= i < step(s, owner, width, height).1.len() ==> (#[trigger] step(
                s,
                owner,
                width,
                height,
            ).1[i]).duration == BULLET_LIFETIME,
{
}

impl Swarm {
    /// A swarm at `(x, y)` with `num_members` members on the first entries of
    /// its offsets table, heading 0, no cooldown and the default program.
    pub fn new(x: i64, y: i64, num_members: usize) -> (r: Self)
        requires
            num_members <= NUM_OFFSETS,
        ensures
            r@ == new_swarm(x, y, num_members as int),
            r@.wf(),
    {
        let offsets = Swarm::calculate_offsets(OFFSET_RADIUS);
        let members = Swarm::build_swarm(num_members, &offsets);
        let program = SwarmProgram::new(
            vec![
                SwarmCommand::MOVE,
                SwarmCommand::TURN(10_000),
                SwarmCommand::MOVE,
                SwarmCommand::TURN(10_000),
                SwarmCommand::MOVE,
                SwarmCommand::TURN(10_000),
                SwarmCommand::MOVE,
                SwarmCommand::TURN(10_000),
                SwarmCommand::FIRE,
            ],
        );
        let r = Swarm {
            x,
            y,
            direction: 0,
            members,
            offsets,
            color: (0, 0, 0),
            experience: 0,
            fire_cooldown: 0,
            formation_cooldown: 0,
            program,
        };
        assert(r@.commands =~= default_commands());
        assert(r@ == new_swarm(x, y, num_members as int));
        r
    }

    /// The first `num_members` offsets as members at full health.
    pub fn build_swarm(num_members: usize, offsets: &Vec<(i64, i64)>) -> (r: Vec<SwarmMember>)
        requires
            num_members <= offsets@.len(),
        ensures
            r@ == initial_members(offsets@, num_members as int),
    {
        let mut swarm: Vec<SwarmMember> = Vec::with_capacity(num_members);
        for i in 0..num_members
            invariant
                num_members <= offsets@.len(),
                swarm@ == offsets@.take(i as int).map_values(
                    |o: (i64, i64)|
                        SwarmMember { x: o.0, y: o.1, direction: 0, health: MEMBER_HEALTH },
                ),
        {
            let o = offsets[i];
            swarm.push(SwarmMember::new(o.0, o.1));
            assert(offsets@.take(i + 1) == offsets@.take(i as int).push(o));
            assert(swarm@ =~= offsets@.take(i + 1).map_values(
                |o: (i64, i64)| SwarmMember { x: o.0, y: o.1, direction: 0, health: MEMBER_HEALTH },
            ));
        }
        swarm
    }

    /// Adds experience, saturating at the largest `i64`.
    pub fn add_experience(&mut self, amt: &i64)
        requires
            *amt >= 0,
        ensures
            final(self)@ == (SwarmView { experience: clamp(old(self).experience + *amt), ..old(self)@ }),
    {
        self.experience = add_clamped(self.experience, *amt);
    }

    /// The same swarm with another color.
    pub fn with_color(self, color: (u8, u8, u8)) -> (r: Self)
        ensures
            r@ == (SwarmView { color, ..self@ }),
    {
        let mut s = self;
        s.color = color;
        s
    }

    /// The offsets table for base radius `radius`.
    pub fn calculate_offsets(radius: i64) -> (r: Vec<(i64, i64)>)
        requires
            0 <= radius <= i64::MAX / 3,
        ensures
            r@ == offset_table(radius as int),
    {
        let mut offset_list: Vec<(i64, i64)> = Vec::new();
        for n in 0..NUM_OFFSETS
            invariant
                0 <= radius <= i64::MAX / 3,
                offset_list@ == Seq::new(n as nat, |i: int| offset_entry(i, radius as int)),
        {
            let (k, j): (i64, i64) = if n == 0 {
                (0, 0)
            } else if n <= 4 {
                (1, n as i64 - 1)
            } else if n <= 12 {
                (2, n as i64 - 5)
            } else {
                (3, n as i64 - 13)
            };
            let entry = if k == 0 {
                (0i64, 0i64)
            } else {
                let a = j * 90_000 / k;
                (scaled_cosine(a, k * radius), scaled_sine(a, k * radius))
            };
            offset_list.push(entry);
            assert(offset_list@ =~= Seq::new((n + 1) as nat, |i: int| offset_entry(i, radius as int)));
        }
        offset_list
    }

    /// Appends one bullet per member to `bullets`, from each member's place,
    /// along the swarm's heading.
    pub fn fire(&self, swarm_id: usize, bullets: &mut Vec<Bullet>)
        ensures
            final(bullets)@ == old(bullets)@ + volley(self@, swarm_id),
    {
        let n = self.members.len();
        for i in 0..n
            invariant
                n == self.members@.len(),
                bullets@ == old(bullets)@ + volley(self@, swarm_id).take(i as int),
        {
            let m = self.members[i];
            let b = Bullet::new(swarm_id, add_clamped(self.x, m.x), add_clamped(self.y, m.y), self.direction);
            bullets.push(b);
            assert(volley(self@, swarm_id).take(i + 1) == volley(self@, swarm_id).take(i as int).push(b));
            assert(bullets@ =~= old(bullets)@ + volley(self@, swarm_id).take(i + 1));
        }
        assert(volley(self@, swarm_id).take(n as int) =~= volley(self@, swarm_id));
    }

    fn move_forward(&mut self, world_width: i64, world_height: i64)
        requires
            is_heading(old(self).direction as int),
        ensures
            final(self)@ == moved(old(self)@, world_width as int, world_height as int),
    {
        let x = self.x as i128;
        let y = self.y as i128;
        let m = EDGE_MARGIN as i128;
        if x - m <= 0 || x + m >= world_width as i128 || y - m <= 0 || y + m >= world_height as i128 {
            self.direction = normalize(-self.direction);
        }
        proof {
            crate::geometry::lemma_normalized_heading(self.direction as int);
        }
        let dx = scaled_cosine(self.direction, SWARM_SPEED);
        let dy = scaled_sine(self.direction, SWARM_SPEED);
        self.x = add_clamped(self.x, dx);
        self.y = sub_clamped(self.y, dy);
    }

    fn turn(&mut self, delta: i64)
        requires
            old(self)@.wf(),
        ensures
            final(self)@ == turned(old(self)@, delta as int),
    {
        self.direction = turn_heading(self.direction, delta);
        let n = self.members.len();
        for i in 0..n
            invariant
                n == self.members@.len() == old(self).members@.len(),
                old(self)@.wf(),
                forall|j: int| 0 <= j < i ==> self.members@[j] == turned_member(old(self).members@[j], delta as int),
                forall|j: int| i <= j < n ==> self.members@[j] == old(self).members@[j],
                self.direction == normalized(old(self).direction + delta),
                self.x == old(self).x,
                self.y == old(self).y,
                self.offsets == old(self).offsets,
                self.color == old(self).color,
                self.experience == old(self).experience,
                self.fire_cooldown == old(self).fire_cooldown,
                self.formation_cooldown == old(self).formation_cooldown,
                self.program == old(self).program,
        {
            let m = self.members[i];
            assert(is_heading(old(self).members@[i as int].direction as int));
            self.members[i] = SwarmMember { direction: turn_heading(m.direction, delta), ..m };
        }
        assert(self.members@ =~= old(self).members@.map_values(|m: SwarmMember| turned_member(m, delta as int)));
    }

    fn take_formation(&mut self, kind: Formation)
        requires
            old(self)@.wf(),
        ensures
            final(self)@ == formed(old(self)@, kind),
    {
        let n = self.members.len();
        let len = self.offsets.len();
        for i in 0..n
            invariant
                n == self.members@.len() == old(self).members@.len(),
                len == self.offsets@.len(),
                old(self)@.wf(),
                self.offsets == old(self).offsets,
                forall|j: int| 0 <= j < i ==> self.members@[j] == (SwarmMember {
                    x: formation_slot(old(self)@, kind, j).0,
                    y: formation_slot(old(self)@, kind, j).1,
                    ..old(self).members@[j]
                }),
                forall|j: int| i <= j < n ==> self.members@[j] == old(self).members@[j],
                self.x == old(self).x,
                self.y == old(self).y,
                self.direction == old(self).direction,
                self.color == old(self).color,
                self.experience == old(self).experience,
                self.fire_cooldown == old(self).fire_cooldown,
                self.formation_cooldown == old(self).formation_cooldown,
                self.program == old(self).program,
        {
            let o = match kind {
                Formation::GATHER => self.offsets[i],
                Formation::SPREAD => self.offsets[len - (1 + i)],
            };
            let m = self.members[i];
            self.members[i] = SwarmMember { x: o.0, y: o.1, ..m };
        }
        assert(self.members@ =~= formed(old(self)@, kind).members);
    }

    /// Member `j` takes a hit: it loses one health, and is removed (swapped
    /// with the last member) when none is left. Returns whether it was
    /// removed.
    pub fn take_hit(&mut self, j: usize) -> (killed: bool)
        requires
            old(self)@.wf(),
            j < old(self).members@.len(),
        ensures
            final(self)@ == damaged(old(self)@, j as int),
            killed == (old(self).members@[j as int].health == 1),
            final(self)@.wf(),
    {
        let m = self.members[j];
        assert(m.health > 0);
        let health = m.health - 1;
        if health == 0 {
            self.members.swap_remove(j);
            assert(self@.members == swap_removed(old(self)@.members, j as int));
            assert forall|i: int| 0 <= i < self@.members.len() implies (
            #[trigger] self@.members[i]).health > 0 && is_heading(self@.members[i].direction as int) by {
                if i == j {
                    assert(self@.members[i] == old(self)@.members.last());
                } else {
                    assert(self@.members[i] == old(self)@.members[i]);
                }
            }
            true
        } else {
            self.members[j] = SwarmMember { health, ..m };
            assert forall|i: int| 0 <= i < self@.members.len() implies (
            #[trigger] self@.members[i]).health > 0 && is_heading(self@.members[i].direction as int) by {
                if i != j {
                    assert(self@.members[i] == old(self)@.members[i]);
                }
            }
            false
        }
    }

    /// Performs one tick: runs the command at the counter, moves the counter
    /// on cyclically and counts both cooldowns down; bullets fired are
    /// appended to `bullets`. An empty program changes nothing.
    pub fn update(
        &mut self,
        swarm_id: usize,
        world_width: i64,
        world_height: i64,
        bullets: &mut Vec<Bullet>,
    )
        requires
            old(self)@.wf(),
        ensures
            final(self)@ == step(old(self)@, swarm_id, world_width as int, world_height as int).0,
            final(bullets)@ == old(bullets)@ + step(
                old(self)@,
                swarm_id,
                world_width as int,
                world_height as int,
            ).1,
            final(self)@.wf(),
    {
        proof {
            lemma_step_wf(self@, swarm_id, world_width as int, world_height as int);
        }
        let len = self.program.commands.len();
        if len == 0 {
            assert(bullets@ =~= bullets@ + Seq::<Bullet>::empty());
            return;
        }
        let ghost bullets0 = bullets@;
        let cmd = self.program.commands[self.program.program_counter];
        match cmd {
            SwarmCommand::MOVE => {
                self.move_forward(world_width, world_height);
            },
            SwarmCommand::FIRE => {
                if self.fire_cooldown == 0 {
                    self.fire(swarm_id, bullets);
                    self.fire_cooldown = FIRE_COOLDOWN;
                }
            },
            SwarmCommand::TURN(delta) => {
                self.turn(delta);
            },
            SwarmCommand::FORMATION(kind) => {
                if self.formation_cooldown == 0 {
                    self.take_formation(kind);
                    self.formation_cooldown = FORMATION_COOLDOWN;
                }
            },
            SwarmCommand::NOOP => {},
        }
        assert(bullets@ =~= bullets0 + executed(old(self)@, swarm_id, world_width as int, world_height as int).1);
        self.program.program_counter = (self.program.program_counter + 1) % len;
        if self.fire_cooldown > 0 {
            self.fire_cooldown = self.fire_cooldown - 1;
        }
        if self.formation_cooldown > 0 {
            self.formation_cooldown = self.formation_cooldown - 1;
        }
    }
}

} // verus!
