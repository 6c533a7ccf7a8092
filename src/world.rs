//! The world: every swarm and bullet, the tick that advances them, and the
//! player lifecycle.
//!
//! Swarms are kept in the order their players joined, each under a unique
//! id; a tick runs them, and tests bullets against them, in that order.
//! Bullets are processed from the first to the last; a bullet that leaves
//! the world is replaced by the last one, which is processed next.
use crate::entity::{
    advanced, clamp, damaged, lemma_step_fires_fresh, new_swarm, step, swap_removed, Bullet, Swarm,
    SwarmMember, SwarmView, INITIAL_SWARM_SIZE,
};
use crate::swarm_language::{SwarmCommand, SwarmProgram};
use rand::Rng;
use vstd::prelude::*;

verus! {

/// Half the side of the box around a swarm's centre inside which a bullet
/// is tested against the members.
pub const BROAD_RADIUS: i64 = 60_000;

/// Half the side of the box around a member inside which a bullet hits it.
pub const HIT_RADIUS: i64 = 10_000;

/// Experience for destroying a member.
pub const KILL_REWARD: i64 = 1000;

/// A new swarm starts at least this far from each edge.
pub const SPAWN_MARGIN: i64 = 50_000;

/// The world, as plain values.
pub struct WorldView {
    pub width: i64,
    pub height: i64,
    pub ids: Seq<usize>,
    pub swarms: Seq<SwarmView>,
    pub bullets: Seq<Bullet>,
}

impl WorldView {
    /// The invariant of a world: one swarm per unique id, every swarm well
    /// formed, every bullet still alive.
    pub open spec fn wf(self) -> bool {
        &&& self.width >= 0
        &&& self.height >= 0
        &&& self.ids.len() == self.swarms.len()
        &&& self.ids.no_duplicates()
        &&& forall|k: int| 0 <= k < self.swarms.len() ==> (#[trigger] self.swarms[k]).wf()
        &&& forall|i: int| 0 <= i < self.bullets.len() ==> (#[trigger] self.bullets[i]).duration
            >= 1
    }
}

/// `a` and `b` differ by at most `r`.
pub open spec fn within(a: int, b: int, r: int) -> bool {
    -r <= a - b <= r
}

/// The bullet lies in the broad box around the swarm's centre.
pub open spec fn near_swarm(b: Bullet, s: SwarmView) -> bool {
    within(b.x as int, s.x as int, BROAD_RADIUS as int) && within(
        b.y as int,
        s.y as int,
        BROAD_RADIUS as int,
    )
}

/// The bullet lies in the hit box of member `m` of swarm `s`.
pub open spec fn hits_member(b: Bullet, s: SwarmView, m: SwarmMember) -> bool {
    within(b.x as int, s.x + m.x, HIT_RADIUS as int) && within(
        b.y as int,
        s.y + m.y,
        HIT_RADIUS as int,
    )
}

/// The first member of `s`, from index `j` on, that the bullet hits.
pub open spec fn first_member_hit(b: Bullet, s: SwarmView, j: int) -> Option<int>
    decreases s.members.len() - j,
{
    if j < 0 || j >= s.members.len() {
        None
    } else if hits_member(b, s, s.members[j]) {
        Some(j)
    } else {
        first_member_hit(b, s, j + 1)
    }
}

/// The bullet may harm swarm `s` of player `id`: it is not the owner's, and
/// it passes the broad test.
pub open spec fn may_hit(b: Bullet, id: usize, s: SwarmView) -> bool {
    b.owner != id && near_swarm(b, s)
}

/// The first swarm, from index `k` on, whose member the bullet hits, with
/// that member's index.
pub open spec fn first_hit(b: Bullet, ids: Seq<usize>, swarms: Seq<SwarmView>, k: int) -> Option<
    (int, int),
>
    decreases swarms.len() - k,
{
    if k < 0 || k >= swarms.len() {
        None
    } else if may_hit(b, ids[k], swarms[k]) && first_member_hit(b, swarms[k], 0) is Some {
        Some((k, first_member_hit(b, swarms[k], 0)->0))
    } else {
        first_hit(b, ids, swarms, k + 1)
    }
}

/// A live bullet tested against the swarms: the swarms after, the rewards
/// after, and whether the bullet was consumed by a hit.
pub open spec fn resolve(
    b: Bullet,
    ids: Seq<usize>,
    swarms: Seq<SwarmView>,
    rewards: Seq<(usize, i64)>,
) -> (Seq<SwarmView>, Seq<(usize, i64)>, bool) {
    match first_hit(b, ids, swarms, 0) {
        Some((k, j)) => (
            swarms.update(k, damaged(swarms[k], j)),
            if swarms[k].members[j].health == 1 {
                rewards.push((b.owner, KILL_REWARD))
            } else {
                rewards
            },
            true,
        ),
        None => (swarms, rewards, false),
    }
}

/// The state of the bullet phase of a tick.
pub struct Pass {
    pub swarms: Seq<SwarmView>,
    pub bullets: Seq<Bullet>,
    pub rewards: Seq<(usize, i64)>,
}

/// The bullet phase from position `i` on: each bullet advances; one that
/// expires, or that hits a member, is swap-removed; the rest stay in place.
pub open spec fn bullet_pass(ids: Seq<usize>, p: Pass, i: int) -> Pass
    decreases p.bullets.len() - i,
{
    if i < 0 || i >= p.bullets.len() {
        p
    } else {
        let b = advanced(p.bullets[i]);
        if b.duration == 0 {
            bullet_pass(ids, Pass { bullets: swap_removed(p.bullets, i), ..p }, i)
        } else {
            let (sw, rw, consumed) = resolve(b, ids, p.swarms, p.rewards);
            if consumed {
                bullet_pass(ids, Pass { swarms: sw, bullets: swap_removed(p.bullets, i), rewards: rw }, i)
            } else {
                bullet_pass(ids, Pass { bullets: p.bullets.update(i, b), ..p }, i + 1)
            }
        }
    }
}

/// The position of `id` among `ids`.
pub open spec fn slot_of(ids: Seq<usize>, id: usize) -> int {
    ids.index_of(id)
}

/// One reward paid to its owner's swarm, if that swarm still exists.
pub open spec fn credited(ids: Seq<usize>, swarms: Seq<SwarmView>, r: (usize, i64)) -> Seq<SwarmView> {
    if ids.contains(r.0) {
        let k = slot_of(ids, r.0);
        swarms.update(k, SwarmView { experience: clamp(swarms[k].experience + r.1), ..swarms[k] })
    } else {
        swarms
    }
}

/// All rewards paid, first to last.
pub open spec fn flushed(ids: Seq<usize>, swarms: Seq<SwarmView>, rewards: Seq<(usize, i64)>) -> Seq<SwarmView>
    decreases rewards.len(),
{
    if rewards.len() == 0 {
        swarms
    } else {
        credited(ids, flushed(ids, swarms, rewards.drop_last()), rewards.last())
    }
}

/// The agent phase over the first `k` swarms: each steps once, in order,
/// appending the bullets it fires.
pub open spec fn agent_phase(w: WorldView, k: int) -> (Seq<SwarmView>, Seq<Bullet>)
    decreases k,
{
    if k <= 0 {
        (w.swarms, w.bullets)
    } else {
        let (sw, bs) = agent_phase(w, k - 1);
        let (s, fired) = step(sw[k - 1], w.ids[k - 1], w.width as int, w.height as int);
        (sw.update(k - 1, s), bs + fired)
    }
}

/// One tick of the world: the agent phase, the bullet phase, then the
/// rewards earned in it paid out.
pub open spec fn tick(w: WorldView) -> WorldView {
    let (sw, bs) = agent_phase(w, w.swarms.len() as int);
    let p = bullet_pass(w.ids, Pass { swarms: sw, bullets: bs, rewards: seq![] }, 0);
    WorldView { swarms: flushed(w.ids, p.swarms, p.rewards), bullets: p.bullets, ..w }
}

/// The views of a sequence of swarms.
pub open spec fn swarms_view(v: Seq<Swarm>) -> Seq<SwarmView> {
    v.map_values(|s: Swarm| s@)
}

/// The state of the game's world.
#[derive(Debug)]
pub struct World {
    /// The width of the playfield.
    pub width: i64,
    /// The height of the playfield.
    pub height: i64,
    /// The player id of each swarm, in the order the players joined.
    pub ids: Vec<usize>,
    /// The swarms, in the order of `ids`.
    pub swarms: Vec<Swarm>,
    /// Each bullet in flight.
    pub bullets: Vec<Bullet>,
}

impl View for World {
    type V = WorldView;

    open spec fn view(&self) -> WorldView {
        WorldView {
            width: self.width,
            height: self.height,
            ids: self.ids@,
            swarms: swarms_view(self.swarms@),
            bullets: self.bullets@,
        }
    }
}


proof fn lemma_first_member_hit(b: Bullet, s: SwarmView, j: int)
    ensures
        first_member_hit(b, s, j) matches Some(x) ==> j <= x < s.members.len() && hits_member(
            b,
            s,
            s.members[x],
        ),
    decreases s.members.len() - j,
{
    if 0 <= j < s.members.len() && !hits_member(b, s, s.members[j]) {
        lemma_first_member_hit(b, s, j + 1);
    }
}

proof fn lemma_first_hit(b: Bullet, ids: Seq<usize>, swarms: Seq<SwarmView>, k: int)
    ensures
        first_hit(b, ids, swarms, k) matches Some((x, y)) ==> {
            &&& k <= x < swarms.len()
            &&& 0 <= y < swarms[x].members.len()
            &&& may_hit(b, ids[x], swarms[x])
            &&& hits_member(b, swarms[x], swarms[x].members[y])
        },
    decreases swarms.len() - k,
{
    if 0 <= k < swarms.len() {
        lemma_first_member_hit(b, swarms[k], 0);
        lemma_first_hit(b, ids, swarms, k + 1);
    }
}

/// `|a - b| <= r`, computed without overflow.
fn within_exec(a: i128, b: i128, r: i128) -> (res: bool)
    requires
        -1_000_000_000_000_000_000_000 <= a <= 1_000_000_000_000_000_000_000,
        -1_000_000_000_000_000_000_000 <= b <= 1_000_000_000_000_000_000_000,
        0 <= r <= 1_000_000_000_000_000_000_000,
    ensures
        res == within(a as int, b as int, r as int),
{
    let d = a - b;
    -r <= d && d <= r
}

/// The first member of `s`, from index `from` on, that the bullet hits, as
/// `first_member_hit` states it.
fn find_member_hit(b: &Bullet, s: &Swarm, from: usize) -> (r: Option<usize>)
    requires
        from <= s.members@.len(),
    ensures
        r matches Some(j) ==> first_member_hit(*b, s@, from as int) == Some(j as int),
        r is None ==> first_member_hit(*b, s@, from as int) is None,
    decreases s.members@.len() - from,
{
    if from == s.members.len() {
        return None;
    }
    let m = s.members[from];
    let hit = within_exec(b.x as i128, s.x as i128 + m.x as i128, HIT_RADIUS as i128)
        && within_exec(b.y as i128, s.y as i128 + m.y as i128, HIT_RADIUS as i128);
    if hit {
        Some(from)
    } else {
        find_member_hit(b, s, from + 1)
    }
}


/// Relies on `rand::Rng::gen_range` over an inclusive range of the thread
/// generator: the result lies in the range, which must not be empty.
#[verifier::external_body]
fn random_in(low: i64, high: i64) -> (r: i64)
    requires
        low <= high,
    ensures
        low <= r <= high,
{
    rand::thread_rng().gen_range(low..=high)
}

/// Relies on `rand::random`: any byte.
#[verifier::external_body]
fn random_byte() -> u8 {
    rand::random::<u8>()
}

/// The range of starting positions along a side of length `d`: at least
/// the spawn margin from both ends, or the middle where the side is too
/// short for that.
pub open spec fn spawn_range(d: int) -> (int, int) {
    if d >= 2 * SPAWN_MARGIN {
        (SPAWN_MARGIN as int, d - SPAWN_MARGIN)
    } else {
        (d / 2, d / 2)
    }
}

/// `v` lies in the spawn range of a side of length `d`.
pub open spec fn in_spawn_range(v: int, d: int) -> bool {
    spawn_range(d).0 <= v <= spawn_range(d).1
}

/// The bullets not fired by player `id`.
pub open spec fn not_owned_by(id: usize) -> spec_fn(Bullet) -> bool {
    |b: Bullet| b.owner != id
}

/// The world without player `id`'s swarm and bullets.
pub open spec fn removed(w: WorldView, id: usize) -> WorldView {
    let bullets = w.bullets.filter(not_owned_by(id));
    if w.ids.contains(id) {
        let k = slot_of(w.ids, id);
        WorldView { ids: w.ids.remove(k), swarms: w.swarms.remove(k), bullets, ..w }
    } else {
        WorldView { bullets, ..w }
    }
}

/// The world with player `id`'s program replaced by `commands`, started
/// from the first command; unchanged if there is no such player.
pub open spec fn reprogrammed(w: WorldView, id: usize, commands: Seq<SwarmCommand>) -> WorldView {
    if w.ids.contains(id) {
        let k = slot_of(w.ids, id);
        WorldView {
            swarms: w.swarms.update(
                k,
                SwarmView { commands, program_counter: 0, ..w.swarms[k] },
            ),
            ..w
        }
    } else {
        w
    }
}

/// What a snapshot shows of one swarm.
#[derive(Debug)]
pub struct SwarmState {
    /// The player's id.
    pub id: usize,
    /// Position of the centre along x.
    pub x: i64,
    /// Position of the centre along y.
    pub y: i64,
    /// The living members.
    pub members: Vec<SwarmMember>,
    /// Color of the swarm.
    pub color: (u8, u8, u8),
    /// Experience gained by the swarm.
    pub experience: i64,
}

impl SwarmState {
    /// This entry shows swarm `s` of player `id`.
    pub open spec fn shows(&self, id: usize, s: SwarmView) -> bool {
        &&& self.id == id
        &&& self.x == s.x
        &&& self.y == s.y
        &&& self.members@ == s.members
        &&& self.color == s.color
        &&& self.experience == s.experience
    }
}

/// A copy of the world for display.
#[derive(Debug)]
pub struct WorldState {
    /// One entry per swarm, in the world's order.
    pub swarms: Vec<SwarmState>,
    /// Every bullet in flight.
    pub bullets: Vec<Bullet>,
}

impl WorldState {
    /// This snapshot shows world `w`.
    pub open spec fn is_snapshot_of(&self, w: WorldView) -> bool {
        &&& self.swarms@.len() == w.ids.len()
        &&& forall|k: int| 0 <= k < w.ids.len() ==> (#[trigger] self.swarms@[k]).shows(w.ids[k], w.swarms[k])
        &&& self.bullets@ == w.bullets
    }
}

/// A copy of a vector of plain values.
fn copy_vec<T: Copy>(v: &Vec<T>) -> (r: Vec<T>)
    ensures
        r@ == v@,
{
    let mut r: Vec<T> = Vec::with_capacity(v.len());
    for i in 0..v.len()
        invariant
            r@ == v@.take(i as int),
    {
        r.push(v[i]);
        assert(r@ =~= v@.take(i + 1));
    }
    assert(v@.take(v@.len() as int) =~= v@);
    r
}

impl World {
    /// The invariant of the world.
    pub open spec fn wf(&self) -> bool {
        self@.wf()
    }

    /// An empty world of the given size.
    pub fn new(width: i64, height: i64) -> (r: Self)
        requires
            width >= 0,
            height >= 0,
        ensures
            r@ == (WorldView {
                width,
                height,
                ids: seq![],
                swarms: seq![],
                bullets: seq![],
            }),
            r.wf(),
    {
        let r = World {
            width,
            height,
            ids: Vec::new(),
            swarms: Vec::new(),
            bullets: Vec::new(),
        };
        assert(r@.swarms =~= seq![]);
        r
    }

    /// An empty world of the given size, with room reserved for `capacity`
    /// players and ten bullets each.
    pub fn with_capacity(width: i64, height: i64, capacity: usize) -> (r: Self)
        requires
            width >= 0,
            height >= 0,
        ensures
            r@ == (WorldView {
                width,
                height,
                ids: seq![],
                swarms: seq![],
                bullets: seq![],
            }),
            r.wf(),
    {
        let bullet_room = if capacity <= usize::MAX / 10 {
            capacity * 10
        } else {
            usize::MAX
        };
        let r = World {
            width,
            height,
            ids: Vec::with_capacity(capacity),
            swarms: Vec::with_capacity(capacity),
            bullets: Vec::with_capacity(bullet_room),
        };
        assert(r@.swarms =~= seq![]);
        r
    }

    /// The position of player `id`, if present.
    pub fn position_of(&self, id: usize) -> (r: Option<usize>)
        requires
            self.wf(),
        ensures
            r matches Some(k) ==> self@.ids.contains(id) && k == slot_of(self@.ids, id),
            r is None ==> !self@.ids.contains(id),
    {
        let n = self.ids.len();
        for k in 0..n
            invariant
                n == self.ids@.len(),
                self.wf(),
                forall|j: int| 0 <= j < k ==> self.ids@[j] != id,
        {
            if self.ids[k] == id {
                proof {
                    assert(self@.ids[k as int] == id);
                    assert(self@.ids.contains(id));
                    let c = slot_of(self@.ids, id);
                    assert(self@.ids[c] == id);
                    assert(self@.ids.no_duplicates());
                    if c != k {
                        assert(self@.ids[c] != self@.ids[k as int]);
                    }
                }
                return Some(k);
            }
        }
        None
    }

    /// A random starting position, within the spawn range on each axis.
    fn random_position(&self) -> (r: (i64, i64))
        requires
            self.width >= 0,
            self.height >= 0,
        ensures
            in_spawn_range(r.0 as int, self.width as int),
            in_spawn_range(r.1 as int, self.height as int),
    {
        let x = if self.width >= 2 * SPAWN_MARGIN {
            random_in(SPAWN_MARGIN, self.width - SPAWN_MARGIN)
        } else {
            self.width / 2
        };
        let y = if self.height >= 2 * SPAWN_MARGIN {
            random_in(SPAWN_MARGIN, self.height - SPAWN_MARGIN)
        } else {
            self.height / 2
        };
        (x, y)
    }

    /// A random color.
    fn random_color() -> (u8, u8, u8) {
        (random_byte(), random_byte(), random_byte())
    }

    /// Adds a player with a new swarm of `INITIAL_SWARM_SIZE` members at a
    /// random position in the spawn range and in a random color. An id that
    /// is already present is rejected, leaving the world unchanged. Returns
    /// whether the player was added.
    pub fn add_player(&mut self, id: usize) -> (added: bool)
        requires
            old(self).wf(),
        ensures
            added == !old(self)@.ids.contains(id),
            !added ==> final(self)@ == old(self)@,
            added ==> {
                let s = final(self)@.swarms.last();
                &&& final(self)@.ids == old(self)@.ids.push(id)
                &&& final(self)@.swarms.drop_last() == old(self)@.swarms
                &&& final(self)@.swarms.len() == old(self)@.swarms.len() + 1
                &&& final(self)@.bullets == old(self)@.bullets
                &&& final(self)@.width == old(self)@.width
                &&& final(self)@.height == old(self)@.height
                &&& s == (SwarmView { color: s.color, ..new_swarm(s.x, s.y, INITIAL_SWARM_SIZE as int) })
                &&& in_spawn_range(s.x as int, old(self).width as int)
                &&& in_spawn_range(s.y as int, old(self).height as int)
            },
            final(self).wf(),
    {
        if self.position_of(id).is_some() {
            return false;
        }
        let (x, y) = self.random_position();
        let color = World::random_color();
        let swarm = Swarm::new(x, y, INITIAL_SWARM_SIZE).with_color(color);
        let ghost sw0 = self@.swarms;
        let ghost ids0 = self@.ids;
        self.ids.push(id);
        self.swarms.push(swarm);
        assert(self@.swarms =~= sw0.push(swarm@));
        assert(self@.swarms.drop_last() =~= sw0);
        assert(self@.ids.no_duplicates()) by {
            assert forall|a: int, b: int|
                0 <= a < self@.ids.len() && 0 <= b < self@.ids.len() && a != b implies self@.ids[a]
                != self@.ids[b] by {
                if a == ids0.len() as int {
                    assert(!ids0.contains(id));
                    assert(ids0[b] != id);
                } else if b == ids0.len() as int {
                    assert(ids0[a] != id);
                }
            }
        }
        assert forall|k: int| 0 <= k < self@.swarms.len() implies (#[trigger] self@.swarms[k]).wf() by {
            if k < sw0.len() {
                assert(self@.swarms[k] == sw0[k]);
            }
        }
        true
    }

    /// Removes player `id`'s swarm, if present, and every bullet it fired.
    pub fn remove_player(&mut self, id: usize)
        requires
            old(self).wf(),
        ensures
            final(self)@ == removed(old(self)@, id),
            final(self).wf(),
    {
        let ghost w0 = self@;
        match self.position_of(id) {
            Some(k) => {
                let ghost sw0 = self@.swarms;
                self.ids.remove(k);
                self.swarms.remove(k);
                assert(self@.swarms =~= sw0.remove(k as int));
                assert(self@.ids.no_duplicates()) by {
                    assert forall|a: int, b: int|
                        0 <= a < self@.ids.len() && 0 <= b < self@.ids.len() && a != b implies self@.ids[a]
                        != self@.ids[b] by {
                        let a0 = if a < k { a } else { a + 1 };
                        let b0 = if b < k { b } else { b + 1 };
                        assert(self@.ids[a] == w0.ids[a0]);
                        assert(self@.ids[b] == w0.ids[b0]);
                    }
                }
                assert forall|x: int| 0 <= x < self@.swarms.len() implies (#[trigger] self@.swarms[x]).wf() by {
                    if x < k {
                        assert(self@.swarms[x] == sw0[x]);
                    } else {
                        assert(self@.swarms[x] == sw0[x + 1]);
                    }
                }
            },
            None => {},
        }
        let n = self.bullets.len();
        let mut kept: Vec<Bullet> = Vec::new();
        for i in 0..n
            invariant
                n == self.bullets@.len(),
                self.bullets@ == w0.bullets,
                w0.wf(),
                kept@ == w0.bullets.take(i as int).filter(not_owned_by(id)),
                forall|j: int| 0 <= j < kept@.len() ==> (#[trigger] kept@[j]).duration >= 1,
        {
            let b = self.bullets[i];
            proof {
                reveal(Seq::filter);
                assert(w0.bullets.take(i + 1).drop_last() == w0.bullets.take(i as int));
                assert(w0.bullets.take(i + 1).last() == b);
            }
            if b.owner != id {
                kept.push(b);
            }
        }
        assert(w0.bullets.take(n as int) == w0.bullets);
        self.bullets = kept;
    }

    /// Replaces player `id`'s program, starting it from its first command.
    /// Returns whether the player exists; if not, nothing changes.
    pub fn update_program(&mut self, player_id: usize, program: SwarmProgram) -> (found: bool)
        requires
            old(self).wf(),
        ensures
            found == old(self)@.ids.contains(player_id),
            final(self)@ == reprogrammed(old(self)@, player_id, program.commands@),
            final(self).wf(),
    {
        match self.position_of(player_id) {
            Some(k) => {
                let ghost sw0 = self@.swarms;
                let mut p = program;
                p.program_counter = 0;
                self.swarms[k].program = p;
                assert(self@.bullets == old(self)@.bullets);
                assert(self@.ids == old(self)@.ids);
                assert(self@.swarms[k as int].wf());
                assert(self@.swarms =~= sw0.update(
                    k as int,
                    SwarmView { commands: program.commands@, program_counter: 0, ..sw0[k as int] },
                ));
                assert forall|x: int| 0 <= x < self@.swarms.len() implies (#[trigger] self@.swarms[x]).wf() by {
                    if x != k {
                        assert(self@.swarms[x] == sw0[x]);
                    }
                }
                true
            },
            None => false,
        }
    }

    /// A snapshot of every swarm and bullet.
    pub fn get_state(&self) -> (r: WorldState)
        requires
            self.wf(),
        ensures
            r.is_snapshot_of(self@),
    {
        let n = self.swarms.len();
        let mut swarms: Vec<SwarmState> = Vec::with_capacity(n);
        for k in 0..n
            invariant
                n == self.swarms@.len(),
                self.wf(),
                swarms@.len() == k,
                forall|j: int| 0 <= j < k ==> (#[trigger] swarms@[j]).shows(self.ids@[j], self@.swarms[j]),
        {
            let s = &self.swarms[k];
            assert(self@.swarms[k as int] == s@);
            swarms.push(SwarmState {
                id: self.ids[k],
                x: s.x,
                y: s.y,
                members: copy_vec(&s.members),
                color: s.color,
                experience: s.experience,
            });
        }
        WorldState { swarms, bullets: copy_vec(&self.bullets) }
    }

    /// Performs one tick, as `tick` states it: every swarm runs one command,
    /// every bullet moves and is removed when it expires or hits a member of
    /// another player's swarm, and the experience earned is paid out.
    pub fn update(&mut self)
        requires
            old(self).wf(),
        ensures
            final(self)@ == tick(old(self)@),
            final(self).wf(),
    {
        let ghost w0 = self@;
        let n = self.swarms.len();
        for k in 0..n
            invariant
                n == self.swarms@.len() == self.ids@.len(),
                self.ids@ == w0.ids,
                self.width == w0.width,
                self.height == w0.height,
                w0.wf(),
                w0.swarms.len() == n,
                (self@.swarms, self@.bullets) == agent_phase(w0, k as int),
                forall|j: int| 0 <= j < n ==> (#[trigger] self@.swarms[j]).wf(),
                forall|i: int| 0 <= i < self@.bullets.len() ==> (#[trigger] self@.bullets[i]).duration >= 1,
        {
            let id = self.ids[k];
            let width = self.width;
            let height = self.height;
            let ghost sw0 = self@.swarms;
            let ghost bs0 = self@.bullets;
            assert(sw0[k as int] == self.swarms@[k as int]@);
            proof {
                lemma_step_fires_fresh(sw0[k as int], id, width as int, height as int);
            }
            self.swarms[k].update(id, width, height, &mut self.bullets);
            assert(self@.swarms =~= sw0.update(
                k as int,
                step(sw0[k as int], id, width as int, height as int).0,
            ));
            assert forall|i: int| 0 <= i < self@.bullets.len() implies (
            #[trigger] self@.bullets[i]).duration >= 1 by {
                if i >= bs0.len() {
                    assert(self@.bullets[i] == step(sw0[k as int], id, width as int, height as int).1[i
                        - bs0.len()]);
                }
            }
        }
        let ghost sw1 = self@.swarms;
        let ghost bs1 = self@.bullets;
        let ghost target = bullet_pass(
            w0.ids,
            Pass { swarms: sw1, bullets: bs1, rewards: seq![] },
            0,
        );
        let mut rewards: Vec<(usize, i64)> = Vec::new();
        assert(rewards@ =~= seq![]);
        let mut i: usize = 0;
        while i < self.bullets.len()
            invariant
                i <= self.bullets@.len(),
                self.swarms@.len() == self.ids@.len(),
                self.ids@ == w0.ids,
                self.width == w0.width,
                self.height == w0.height,
                w0.wf(),
                self.wf(),
                bullet_pass(
                    w0.ids,
                    Pass { swarms: self@.swarms, bullets: self@.bullets, rewards: rewards@ },
                    i as int,
                ) == target,
                forall|r: int| 0 <= r < rewards@.len() ==> (#[trigger] rewards@[r]).1 == KILL_REWARD,
            decreases self.bullets@.len() - i,
        {
            let ghost sw = self@.swarms;
            let ghost bs = self@.bullets;
            let mut b = self.bullets[i];
            b.update();
            if b.duration == 0 {
                self.bullets.swap_remove(i);
                assert(self@.bullets == swap_removed(bs, i as int));
            } else {
                proof {
                    lemma_first_hit(b, self@.ids, self@.swarms, 0);
                }
                match self.find_hit(&b) {
                    Some((k, j)) => {
                        assert(sw[k as int] == self.swarms@[k as int]@);
                        let killed = self.swarms[k].take_hit(j);
                        assert(self@.swarms =~= sw.update(k as int, damaged(sw[k as int], j as int)));
                        if killed {
                            rewards.push((b.owner, KILL_REWARD));
                        }
                        self.bullets.swap_remove(i);
                        assert(self@.bullets == swap_removed(bs, i as int));
                        assert forall|x: int| 0 <= x < self@.swarms.len() implies (
                        #[trigger] self@.swarms[x]).wf() by {
                            if x != k {
                                assert(self@.swarms[x] == sw[x]);
                            }
                        }
                    },
                    None => {
                        self.bullets[i] = b;
                        assert(self@.bullets == bs.update(i as int, b));
                        i = i + 1;
                    },
                }
            }
        }
        let ghost sw2 = self@.swarms;
        let ghost rw = rewards@;
        let ghost old_bullets = self@.bullets;
        let m = rewards.len();
        for r in 0..m
            invariant
                m == rw.len(),
                rewards@ == rw,
                self.swarms@.len() == self.ids@.len(),
                self.ids@ == w0.ids,
                self.width == w0.width,
                self.height == w0.height,
                self.wf(),
                self@.swarms == flushed(w0.ids, sw2, rw.take(r as int)),
                self@.bullets == old_bullets,
                forall|x: int| 0 <= x < rw.len() ==> (#[trigger] rw[x]).1 == KILL_REWARD,
        {
            let (owner, amt) = rewards[r];
            assert(rw.take(r + 1).drop_last() == rw.take(r as int));
            assert(rw.take(r + 1).last() == rw[r as int]);
            let ghost sw = self@.swarms;
            match self.position_of(owner) {
                Some(k) => {
                    assert(sw[k as int] == self.swarms@[k as int]@);
                    self.swarms[k].add_experience(&amt);
                    assert(self@.swarms =~= sw.update(
                        k as int,
                        SwarmView { experience: clamp(sw[k as int].experience + amt), ..sw[k as int] },
                    ));
                    assert forall|x: int| 0 <= x < self@.swarms.len() implies (
                    #[trigger] self@.swarms[x]).wf() by {
                        if x != k {
                            assert(self@.swarms[x] == sw[x]);
                        }
                    }
                },
                None => {},
            }
        }
        assert(rw.take(m as int) == rw);
    }

    /// The first swarm whose member the bullet hits, with that member, as
    /// `first_hit` states it.
    fn find_hit(&self, b: &Bullet) -> (r: Option<(usize, usize)>)
        requires
            self.wf(),
        ensures
            r matches Some((k, j)) ==> first_hit(*b, self@.ids, self@.swarms, 0) == Some(
                (k as int, j as int),
            ),
            r is None ==> first_hit(*b, self@.ids, self@.swarms, 0) is None,
    {
        let n = self.swarms.len();
        let mut k: usize = 0;
        while k < n
            invariant
                n == self.swarms@.len() == self@.swarms.len() == self@.ids.len(),
                k <= n,
                first_hit(*b, self@.ids, self@.swarms, 0) == first_hit(
                    *b,
                    self@.ids,
                    self@.swarms,
                    k as int,
                ),
            decreases n - k,
        {
            let s = &self.swarms[k];
            assert(self@.swarms[k as int] == s@);
            let id = self.ids[k];
            if b.owner != id && within_exec(b.x as i128, s.x as i128, BROAD_RADIUS as i128)
                && within_exec(b.y as i128, s.y as i128, BROAD_RADIUS as i128) {
                match find_member_hit(b, s, 0) {
                    Some(j) => {
                        return Some((k, j));
                    },
                    None => {},
                }
            }
            k = k + 1;
        }
        None
    }
}


/// All bullets of `bs` have at least one tick to live.
pub open spec fn all_live(bs: Seq<Bullet>) -> bool {
    forall|i: int| 0 <= i < bs.len() ==> (#[trigger] bs[i]).duration >= 1
}

proof fn lemma_agent_phase_live(w: WorldView, k: int)
    requires
        w.wf(),
        0 <= k <= w.swarms.len(),
    ensures
        all_live(agent_phase(w, k).1),
        agent_phase(w, k).0.len() == w.swarms.len(),
    decreases k,
{
    if k > 0 {
        lemma_agent_phase_live(w, k - 1);
        let (sw, bs) = agent_phase(w, k - 1);
        lemma_step_fires_fresh(sw[k - 1], w.ids[k - 1], w.width as int, w.height as int);
        let fired = step(sw[k - 1], w.ids[k - 1], w.width as int, w.height as int).1;
        assert forall|i: int| 0 <= i < (bs + fired).len() implies (#[trigger] (bs + fired)[i]).duration
            >= 1 by {
            if i >= bs.len() {
                assert((bs + fired)[i] == fired[i - bs.len()]);
            }
        }
    }
}

proof fn lemma_bullet_pass_live(ids: Seq<usize>, p: Pass, i: int)
    requires
        all_live(p.bullets),
    ensures
        all_live(bullet_pass(ids, p, i).bullets),
    decreases p.bullets.len() - i,
{
    if 0 <= i < p.bullets.len() {
        let b = advanced(p.bullets[i]);
        let removed_bullets = swap_removed(p.bullets, i);
        assert(all_live(removed_bullets)) by {
            assert forall|x: int| 0 <= x < removed_bullets.len() implies (
            #[trigger] removed_bullets[x]).duration >= 1 by {
                if x == i {
                    assert(removed_bullets[x] == p.bullets[p.bullets.len() - 1]);
                } else {
                    assert(removed_bullets[x] == p.bullets[x]);
                }
            }
        }
        if b.duration == 0 {
            lemma_bullet_pass_live(ids, Pass { bullets: removed_bullets, ..p }, i);
        } else {
            let (sw, rw, consumed) = resolve(b, ids, p.swarms, p.rewards);
            if consumed {
                lemma_bullet_pass_live(ids, Pass { swarms: sw, bullets: removed_bullets, rewards: rw }, i);
            } else {
                let kept = p.bullets.update(i, b);
                assert(all_live(kept)) by {
                    assert forall|x: int| 0 <= x < kept.len() implies (#[trigger] kept[x]).duration >= 1 by {
                        if x != i {
                            assert(kept[x] == p.bullets[x]);
                        }
                    }
                }
                lemma_bullet_pass_live(ids, Pass { bullets: kept, ..p }, i + 1);
            }
        }
    }
}

/// A bullet whose lifetime runs out is gone after the tick: every bullet
/// left has at least one tick to live.
pub proof fn lemma_expired_bullets_gone(w: WorldView)
    requires
        w.wf(),
    ensures
        forall|i: int| 0 <= i < tick(w).bullets.len() ==> (#[trigger] tick(w).bullets[i]).duration >= 1,
{
    lemma_agent_phase_live(w, w.swarms.len() as int);
    let (sw, bs) = agent_phase(w, w.swarms.len() as int);
    lemma_bullet_pass_live(w.ids, Pass { swarms: sw, bullets: bs, rewards: seq![] }, 0);
}

/// A live bullet at position `i` whose first hit is member `j` of swarm `k`
/// hits a swarm of another player; the member loses exactly one health, or
/// is removed from its swarm if that was its last, in which case the
/// bullet's owner is owed the kill reward; no other swarm or member changes;
/// and the bullet is removed from the world in the same pass.
pub proof fn lemma_hit_consumes_bullet(ids: Seq<usize>, p: Pass, i: int, k: int, j: int)
    requires
        0 <= i < p.bullets.len(),
        advanced(p.bullets[i]).duration != 0,
        first_hit(advanced(p.bullets[i]), ids, p.swarms, 0) == Some((k, j)),
    ensures
        ({
            let b = advanced(p.bullets[i]);
            let s = p.swarms[k];
            let m = s.members[j];
            let after = damaged(s, j);
            &&& ids[k] != b.owner
            &&& 0 <= j < s.members.len()
            &&& m.health > 1 ==> after.members.len() == s.members.len() && after.members[j].health
                == m.health - 1 && after.members[j] == (SwarmMember { health: (m.health - 1) as i32, ..m })
            &&& m.health > 1 ==> forall|x: int| 0 <= x < s.members.len() && x != j ==> after.members[x] == s.members[x]
            &&& m.health == 1 ==> after.members.to_multiset() == s.members.to_multiset().remove(m)
            &&& bullet_pass(ids, p, i) == bullet_pass(
                ids,
                Pass {
                    swarms: p.swarms.update(k, after),
                    bullets: swap_removed(p.bullets, i),
                    rewards: if m.health == 1 {
                        p.rewards.push((b.owner, KILL_REWARD))
                    } else {
                        p.rewards
                    },
                },
                i,
            )
        }),
{
    let b = advanced(p.bullets[i]);
    lemma_first_hit(b, ids, p.swarms, 0);
    let s = p.swarms[k];
    if s.members[j].health == 1 {
        lemma_swap_removed_multiset(s.members, j);
    }
}

proof fn lemma_swap_removed_multiset<T>(s: Seq<T>, j: int)
    requires
        0 <= j < s.len(),
    ensures
        swap_removed(s, j).to_multiset() == s.to_multiset().remove(s[j]),
{
    let last = s.last();
    let n = s.len() - 1;
    let t = s.update(j, last);
    vstd::seq_lib::to_multiset_update(s, j, last);
    vstd::seq_lib::to_multiset_remove(t, n);
    assert(t.remove(n) =~= swap_removed(s, j));
    assert(t[n] == last);
    assert(s.to_multiset().insert(last).remove(s[j]).remove(last) =~= s.to_multiset().remove(s[j]));
}

/// A bullet never harms its owner's swarm, and one that overlaps no member
/// of any other swarm is not consumed.
pub proof fn lemma_own_swarm_unharmed(
    b: Bullet,
    ids: Seq<usize>,
    swarms: Seq<SwarmView>,
    rewards: Seq<(usize, i64)>,
    k: int,
)
    requires
        ids.len() == swarms.len(),
        0 <= k < swarms.len(),
        ids[k] == b.owner,
    ensures
        resolve(b, ids, swarms, rewards).0[k] == swarms[k],
        (forall|x: int| 0 <= x < swarms.len() && ids[x] != b.owner ==> first_member_hit(b, swarms[x], 0) is None)
            ==> !resolve(b, ids, swarms, rewards).2 && resolve(b, ids, swarms, rewards).0 == swarms,
{
    lemma_first_hit(b, ids, swarms, 0);
    if forall|x: int| 0 <= x < swarms.len() && ids[x] != b.owner ==> first_member_hit(b, swarms[x], 0) is None {
        lemma_first_hit_none(b, ids, swarms, 0);
    }
}

proof fn lemma_first_hit_none(b: Bullet, ids: Seq<usize>, swarms: Seq<SwarmView>, k: int)
    requires
        0 <= k,
        ids.len() == swarms.len(),
        forall|x: int| 0 <= x < swarms.len() && ids[x] != b.owner ==> first_member_hit(b, swarms[x], 0) is None,
    ensures
        first_hit(b, ids, swarms, k) is None,
    decreases swarms.len() - k,
{
    if k < swarms.len() {
        lemma_first_hit_none(b, ids, swarms, k + 1);
    }
}

/// The total of the rewards in `rewards` owed to player `id`.
pub open spec fn owed(rewards: Seq<(usize, i64)>, id: usize) -> int
    decreases rewards.len(),
{
    if rewards.len() == 0 {
        0
    } else {
        owed(rewards.drop_last(), id) + if rewards.last().0 == id {
            rewards.last().1 as int
        } else {
            0
        }
    }
}

proof fn lemma_owed_grows(rewards: Seq<(usize, i64)>, id: usize)
    requires
        forall|x: int| 0 <= x < rewards.len() ==> (#[trigger] rewards[x]).1 >= 0,
    ensures
        0 <= owed(rewards.drop_last(), id) <= owed(rewards, id) || rewards.len() == 0,
        owed(rewards, id) >= 0,
    decreases rewards.len(),
{
    if rewards.len() > 0 {
        let d = rewards.drop_last();
        assert forall|x: int| 0 <= x < d.len() implies (#[trigger] d[x]).1 >= 0 by {
            assert(d[x] == rewards[x]);
        }
        lemma_owed_grows(d, id);
        assert(rewards.last() == rewards[rewards.len() - 1]);
    }
}

/// Paying out the rewards raises each swarm's experience by exactly what is
/// owed to its player, short of the largest `i64`, and changes nothing else;
/// rewards owed to players no longer present are dropped.
pub proof fn lemma_flush_pays_owed(ids: Seq<usize>, swarms: Seq<SwarmView>, rewards: Seq<(usize, i64)>)
    requires
        ids.len() == swarms.len(),
        ids.no_duplicates(),
        forall|x: int| 0 <= x < rewards.len() ==> (#[trigger] rewards[x]).1 >= 0,
        forall|k: int|
            0 <= k < swarms.len() ==> (#[trigger] swarms[k]).experience + owed(rewards, ids[k]) <= i64::MAX,
    ensures
        flushed(ids, swarms, rewards).len() == swarms.len(),
        forall|k: int|
            0 <= k < swarms.len() ==> (#[trigger] flushed(ids, swarms, rewards)[k]) == (SwarmView {
                experience: (swarms[k].experience + owed(rewards, ids[k])) as i64,
                ..swarms[k]
            }),
    decreases rewards.len(),
{
    if rewards.len() == 0 {
        assert forall|k: int| 0 <= k < swarms.len() implies (#[trigger] flushed(ids, swarms, rewards)[k])
            == (SwarmView { experience: (swarms[k].experience + owed(rewards, ids[k])) as i64, ..swarms[k] }) by {
        }
    } else {
        let d = rewards.drop_last();
        let r = rewards.last();
        assert(r == rewards[rewards.len() - 1]);
        assert forall|x: int| 0 <= x < d.len() implies (#[trigger] d[x]).1 >= 0 by {
            assert(d[x] == rewards[x]);
        }
        assert forall|k: int| 0 <= k < swarms.len() implies (#[trigger] swarms[k]).experience + owed(d, ids[k])
            <= i64::MAX by {
            lemma_owed_grows(rewards, ids[k]);
        }
        lemma_flush_pays_owed(ids, swarms, d);
        let prev = flushed(ids, swarms, d);
        assert forall|k: int| 0 <= k < swarms.len() implies (#[trigger] flushed(ids, swarms, rewards)[k])
            == (SwarmView { experience: (swarms[k].experience + owed(rewards, ids[k])) as i64, ..swarms[k] }) by {
            lemma_owed_grows(rewards, ids[k]);
            lemma_owed_grows(d, ids[k]);
            assert(prev[k] == (SwarmView { experience: (swarms[k].experience + owed(d, ids[k])) as i64, ..swarms[k] }));
            if ids.contains(r.0) {
                let j = slot_of(ids, r.0);
                assert(ids[j] == r.0);
                if j == k {
                    assert(ids[k] == r.0);
                } else {
                    assert(ids[k] != r.0);
                }
            } else {
                assert(ids[k] != r.0);
            }
        }
    }
}

/// The rewards earned in the bullet phase of a tick of `w`, one per kill.
pub open spec fn tick_rewards(w: WorldView) -> Seq<(usize, i64)> {
    let (sw, bs) = agent_phase(w, w.swarms.len() as int);
    bullet_pass(w.ids, Pass { swarms: sw, bullets: bs, rewards: seq![] }, 0).rewards
}

proof fn lemma_agent_phase_experience(w: WorldView, k: int)
    requires
        0 <= k <= w.swarms.len(),
        w.ids.len() == w.swarms.len(),
    ensures
        agent_phase(w, k).0.len() == w.swarms.len(),
        forall|x: int|
            0 <= x < w.swarms.len() ==> (#[trigger] agent_phase(w, k).0[x]).experience
                == w.swarms[x].experience,
    decreases k,
{
    if k > 0 {
        lemma_agent_phase_experience(w, k - 1);
    }
}

proof fn lemma_bullet_pass_experience(ids: Seq<usize>, p: Pass, i: int)
    requires
        forall|r: int| 0 <= r < p.rewards.len() ==> (#[trigger] p.rewards[r]).1 == KILL_REWARD,
    ensures
        bullet_pass(ids, p, i).swarms.len() == p.swarms.len(),
        forall|x: int|
            0 <= x < p.swarms.len() ==> (#[trigger] bullet_pass(ids, p, i).swarms[x]).experience
                == p.swarms[x].experience,
        forall|r: int|
            0 <= r < bullet_pass(ids, p, i).rewards.len() ==> (#[trigger] bullet_pass(
                ids,
                p,
                i,
            ).rewards[r]).1 == KILL_REWARD,
    decreases p.bullets.len() - i,
{
    if 0 <= i < p.bullets.len() {
        let b = advanced(p.bullets[i]);
        if b.duration == 0 {
            lemma_bullet_pass_experience(ids, Pass { bullets: swap_removed(p.bullets, i), ..p }, i);
        } else {
            let (sw, rw, consumed) = resolve(b, ids, p.swarms, p.rewards);
            if consumed {
                lemma_first_hit(b, ids, p.swarms, 0);
                assert forall|r: int| 0 <= r < rw.len() implies (#[trigger] rw[r]).1 == KILL_REWARD by {
                    if r < p.rewards.len() {
                        assert(rw[r] == p.rewards[r]);
                    }
                }
                lemma_bullet_pass_experience(
                    ids,
                    Pass { swarms: sw, bullets: swap_removed(p.bullets, i), rewards: rw },
                    i,
                );
            } else {
                lemma_bullet_pass_experience(ids, Pass { bullets: p.bullets.update(i, b), ..p }, i + 1);
            }
        }
    }
}

/// In a tick, each swarm's experience rises by exactly what the kills of
/// the tick owe its player, short of the largest `i64`: every kill is worth
/// the kill reward to the owner of the bullet that made it.
pub proof fn lemma_tick_pays_kills(w: WorldView)
    requires
        w.wf(),
        forall|k: int|
            0 <= k < w.swarms.len() ==> (#[trigger] w.swarms[k]).experience + owed(
                tick_rewards(w),
                w.ids[k],
            ) <= i64::MAX,
    ensures
        forall|r: int|
            0 <= r < tick_rewards(w).len() ==> (#[trigger] tick_rewards(w)[r]).1 == KILL_REWARD,
        tick(w).swarms.len() == w.swarms.len(),
        forall|k: int|
            0 <= k < w.swarms.len() ==> (#[trigger] tick(w).swarms[k]).experience
                == w.swarms[k].experience + owed(tick_rewards(w), w.ids[k]),
{
    let n = w.swarms.len() as int;
    lemma_agent_phase_experience(w, n);
    let (sw, bs) = agent_phase(w, n);
    let p0 = Pass { swarms: sw, bullets: bs, rewards: seq![] };
    lemma_bullet_pass_experience(w.ids, p0, 0);
    let p = bullet_pass(w.ids, p0, 0);
    assert forall|k: int| 0 <= k < p.swarms.len() implies (#[trigger] p.swarms[k]).experience + owed(
        p.rewards,
        w.ids[k],
    ) <= i64::MAX by {
        assert(p.swarms[k].experience == sw[k].experience);
        assert(sw[k].experience == w.swarms[k].experience);
    }
    lemma_flush_pays_owed(w.ids, p.swarms, p.rewards);
    assert forall|k: int| 0 <= k < w.swarms.len() implies (#[trigger] tick(w).swarms[k]).experience
        == w.swarms[k].experience + owed(tick_rewards(w), w.ids[k]) by {
        assert(p.rewards == tick_rewards(w));
        assert(tick(w).swarms[k] == flushed(w.ids, p.swarms, p.rewards)[k]);
        assert(p.swarms[k].experience == sw[k].experience);
        assert(w.swarms[k].wf());
        lemma_owed_grows(p.rewards, w.ids[k]);
        let f = flushed(w.ids, p.swarms, p.rewards)[k];
        assert(f.experience == (p.swarms[k].experience + owed(p.rewards, w.ids[k])) as i64);
    }
}

/// After a player is removed, none of its bullets remain, and a snapshot
/// of the world shows no swarm of it.
pub proof fn lemma_removed_player_gone(w: WorldView, id: usize, st: &WorldState)
    requires
        w.wf(),
        st.is_snapshot_of(removed(w, id)),
    ensures
        forall|i: int| 0 <= i < removed(w, id).bullets.len() ==> (#[trigger] removed(w, id).bullets[i]).owner != id,
        !removed(w, id).ids.contains(id),
        forall|k: int| 0 <= k < st.swarms@.len() ==> (#[trigger] st.swarms@[k]).id != id,
{
    let r = removed(w, id);
    assert forall|i: int| 0 <= i < r.bullets.len() implies (#[trigger] r.bullets[i]).owner != id by {
        w.bullets.lemma_filter_pred(not_owned_by(id), i);
    }
    if w.ids.contains(id) {
        let k = slot_of(w.ids, id);
        assert(w.ids[k] == id);
        assert forall|x: int| 0 <= x < r.ids.len() implies r.ids[x] != id by {
            let x0 = if x < k { x } else { x + 1 };
            assert(r.ids[x] == w.ids[x0]);
        }
    }
    assert forall|k: int| 0 <= k < st.swarms@.len() implies (#[trigger] st.swarms@[k]).id != id by {
        assert(st.swarms@[k].shows(r.ids[k], r.swarms[k]));
    }
}

} // verus!
