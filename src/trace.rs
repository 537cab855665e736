//! The decisions of the ray-march loop: which object a ray meets first, what
//! it does at the surface it meets, and when its path ends.
//!
//! The geometry that feeds these decisions (hit parameters as order keys,
//! whether Snell's law admits a transmitted ray, the draw against a
//! reflectance) is computed by the caller.

use vstd::prelude::*;

verus! {

/// The optical law of a surface, without its parameters.
#[derive(Debug, Clone, Copy, PartialEq, Eq, Structural)]
pub enum MaterialKind {
    /// Perfect specular reflection.
    Mirror,
    /// A dielectric: refraction, or reflection where it is total.
    Glass,
    /// Reflects with some probability, and otherwise lets the ray through.
    HalfMirror,
}

/// What a ray does at the surface it meets.
#[derive(Debug, Clone, Copy, PartialEq, Eq, Structural)]
pub enum Response {
    /// The direction is mirrored about the normal; the medium is kept.
    Reflect,
    /// The direction bends by Snell's law and the ray changes medium.
    Refract,
    /// The ray goes on unchanged.
    Transmit,
}

/// The response at a surface of the given kind. `refracts` says whether
/// Snell's law admits a transmitted ray there (it does not under total
/// internal reflection); `reflect_drawn` whether the uniform draw fell below
/// the surface's reflectance.
pub open spec fn response_of(kind: MaterialKind, refracts: bool, reflect_drawn: bool) -> Response {
    match kind {
        MaterialKind::Mirror => Response::Reflect,
        MaterialKind::Glass => if refracts {
            Response::Refract
        } else {
            Response::Reflect
        },
        MaterialKind::HalfMirror => if reflect_drawn {
            Response::Reflect
        } else {
            Response::Transmit
        },
    }
}

/// Chooses what the ray does at a surface.
pub fn respond(kind: MaterialKind, refracts: bool, reflect_drawn: bool) -> (r: Response)
    ensures
        r == response_of(kind, refracts, reflect_drawn),
{
    match kind {
        MaterialKind::Mirror => Response::Reflect,
        MaterialKind::Glass => if refracts {
            Response::Refract
        } else {
            Response::Reflect
        },
        MaterialKind::HalfMirror => if reflect_drawn {
            Response::Reflect
        } else {
            Response::Transmit
        },
    }
}

/// Object `i` holds the closest first hit: it has one, no object has a
/// smaller key, and every earlier object's key is larger.
pub open spec fn is_closest(firsts: Seq<Option<u32>>, i: int) -> bool {
    &&& 0 <= i < firsts.len()
    &&& firsts[i] is Some
    &&& forall|j: int|
        0 <= j < firsts.len() && #[trigger] firsts[j] is Some ==> firsts[i]->0 <= firsts[j]->0
    &&& forall|j: int|
        0 <= j < i && #[trigger] firsts[j] is Some ==> firsts[i]->0 < firsts[j]->0
}

/// Picks, among the first hits of the scene's objects (their order keys, or
/// `None` for an object the ray misses), the closest one; of equal keys the
/// earliest object wins. `None` when the ray misses every object.
pub fn closest_hit(firsts: &Vec<Option<u32>>) -> (r: Option<usize>)
    ensures
        r is None <==> forall|j: int| 0 <= j < firsts@.len() ==> #[trigger] firsts@[j] is None,
        r matches Some(i) ==> is_closest(firsts@, i as int),
{
    let mut best: Option<usize> = None;
    let mut k: usize = 0;
    while k < firsts.len()
        invariant
            k <= firsts.len(),
            best is None <==> forall|j: int| 0 <= j < k ==> #[trigger] firsts@[j] is None,
            best matches Some(i) ==> is_closest(firsts@.take(k as int), i as int),
        decreases firsts.len() - k,
    {
        let candidate = firsts[k];
        proof {
            assert(firsts@.take(k + 1) =~= firsts@.take(k as int).push(candidate));
        }
        match candidate {
            Some(key) => {
                let better = match best {
                    None => true,
                    Some(i) => match firsts[i] {
                        Some(held) => key < held,
                        None => false,
                    },
                };
                if better {
                    best = Some(k);
                }
            },
            None => {},
        }
        k = k + 1;
    }
    assert(firsts@.take(k as int) =~= firsts@);
    best
}

/// Where a ray's trace stands.
#[derive(Debug, Clone, Copy, PartialEq, Eq, Structural)]
pub enum Phase {
    /// The next closest hit is to be found.
    Searching,
    /// The last search found nothing: the path ended with a far point.
    Escaped,
    /// The bounce budget is spent: the path ended at the last hit.
    Exhausted,
}

/// What the caller does after a search.
#[derive(Debug, Clone, Copy, PartialEq, Eq, Structural)]
pub enum Action {
    /// Append the point that lies the infinity distance along the ray.
    AppendFarPoint,
    /// Append the hit point, apply the response to the ray, and push its
    /// origin off the surface.
    Bounce(Response),
}

/// What a search for the closest hit found.
#[derive(Debug, Clone, Copy, PartialEq, Eq, Structural)]
pub enum Event {
    Missed,
    Hit { kind: MaterialKind, refracts: bool, reflect_drawn: bool },
}

/// The state of one ray's trace under a bounce budget.
#[derive(Debug, Clone, Copy, PartialEq, Eq, Structural)]
pub struct PathTrace {
    pub max_bounces: u32,
    pub bounces: u32,
    pub phase: Phase,
}

impl PathTrace {
    /// The budget is never overdrawn, and a search is pending exactly while
    /// the ray has neither escaped nor spent the budget.
    pub open spec fn wf(self) -> bool {
        &&& self.bounces <= self.max_bounces
        &&& (self.phase == Phase::Exhausted) == (self.bounces == self.max_bounces)
    }

    /// The number of vertices of the path so far: the start, one per bounce,
    /// and the far point of an escaped ray.
    pub open spec fn vertices(self) -> nat {
        let far: nat = if self.phase == Phase::Escaped {
            1
        } else {
            0
        };
        (1 + self.bounces + far) as nat
    }

    /// The bounce budget bounds the work on one ray: whatever the events,
    /// its path never holds more than `max_bounces + 1` points.
    pub proof fn law_path_bounded(self)
        requires
            self.wf(),
        ensures
            self.vertices() <= self.max_bounces + 1,
    {
    }

    /// A fresh trace: searching, unless the budget allows no bounce at all.
    pub fn new(max_bounces: u32) -> (r: PathTrace)
        ensures
            r.wf(),
            r.max_bounces == max_bounces,
            r.bounces == 0,
            r.phase == (if max_bounces == 0 {
                Phase::Exhausted
            } else {
                Phase::Searching
            }),
    {
        let phase = if max_bounces == 0 {
            Phase::Exhausted
        } else {
            Phase::Searching
        };
        PathTrace { max_bounces, bounces: 0, phase }
    }

    /// Whether another closest hit is to be searched for.
    pub fn is_searching(&self) -> (r: bool)
        ensures
            r == (self.phase == Phase::Searching),
    {
        match self.phase {
            Phase::Searching => true,
            _ => false,
        }
    }

    /// Takes the outcome of a search and says what to do with it. A miss
    /// ends the path with a far point; a hit spends one bounce and ends the
    /// path when it was the last the budget allows.
    pub fn step(&mut self, event: Event) -> (r: Action)
        requires
            old(self).wf(),
            old(self).phase == Phase::Searching,
        ensures
            final(self).wf(),
            final(self).max_bounces == old(self).max_bounces,
            event is Missed ==> {
                &&& r == Action::AppendFarPoint
                &&& final(self).bounces == old(self).bounces
                &&& final(self).phase == Phase::Escaped
            },
            event matches Event::Hit { kind, refracts, reflect_drawn } ==> {
                &&& r == Action::Bounce(response_of(kind, refracts, reflect_drawn))
                &&& final(self).bounces == old(self).bounces + 1
                &&& final(self).phase == if final(self).bounces == final(self).max_bounces {
                    Phase::Exhausted
                } else {
                    Phase::Searching
                }
            },
            final(self).vertices() == old(self).vertices() + 1,
    {
        match event {
            Event::Missed => {
                self.phase = Phase::Escaped;
                Action::AppendFarPoint
            },
            Event::Hit { kind, refracts, reflect_drawn } => {
                self.bounces = self.bounces + 1;
                if self.bounces == self.max_bounces {
                    self.phase = Phase::Exhausted;
                }
                Action::Bounce(respond(kind, refracts, reflect_drawn))
            },
        }
    }
}

} // verus!
