//! Pair nodes in an arena, and the cycle-safe walker over chains of them.

use vstd::prelude::*;
use crate::lisp::{LispError, LispObject, TypePredicate};
use crate::walks::{is_node, lemma_advance_tracks};

verus! {

/// A two-slot mutable cell. Chains are formed through `second`.
#[derive(Clone, Copy, Debug, PartialEq, Eq, Structural)]
pub struct PairNode {
    pub first: LispObject,
    pub second: LispObject,
}

/// A handle to a pair node: its index in the arena that owns it.
#[derive(Clone, Copy, Debug, PartialEq, Eq, Structural)]
pub struct LispCons(pub usize);

/// The store that owns every pair node. Nodes are created and rewritten, never
/// freed, so a handle that was valid once stays valid.
pub struct PairArena {
    cells: Vec<PairNode>,
}

impl View for PairArena {
    type V = Seq<PairNode>;

    closed spec fn view(&self) -> Seq<PairNode> {
        self.cells@
    }
}

/// Whether `v` denotes a pair node that `cells` holds.
pub open spec fn is_pair(cells: Seq<PairNode>, v: LispObject) -> bool {
    v is Cons && v->Cons_0 < cells.len()
}

/// The value one link after `v`. A value that is no pair node has no link to
/// follow and is its own successor.
pub open spec fn rest_of(cells: Seq<PairNode>, v: LispObject) -> LispObject {
    if is_pair(cells, v) {
        cells[v->Cons_0 as int].second
    } else {
        v
    }
}

/// The value `k` links after `v`.
pub open spec fn tail_at(cells: Seq<PairNode>, v: LispObject, k: nat) -> LispObject
    decreases k,
{
    if k == 0 {
        v
    } else {
        rest_of(cells, tail_at(cells, v, (k - 1) as nat))
    }
}

impl PairArena {
    /// An arena without nodes.
    pub fn new() -> (arena: PairArena)
        ensures
            arena@ == Seq::<PairNode>::empty(),
    {
        PairArena { cells: Vec::new() }
    }

    /// The number of nodes.
    pub fn len(&self) -> (n: usize)
        ensures
            n == self@.len(),
    {
        self.cells.len()
    }

    /// Whether `cons` denotes a node of this arena.
    pub fn contains(&self, cons: LispCons) -> (r: bool)
        ensures
            r == (cons.0 < self@.len()),
    {
        cons.0 < self.cells.len()
    }

    /// The number of nodes fits the machine.
    pub proof fn lemma_len(&self)
        ensures
            self@.len() <= usize::MAX,
    {
        assert(self.cells.len() == self.cells@.len());
    }

    /// The node that `cons` denotes.
    pub fn node(&self, cons: LispCons) -> (node: PairNode)
        requires
            cons.0 < self@.len(),
        ensures
            node == self@[cons.0 as int],
    {
        self.cells[cons.0]
    }

    /// Creates a node and hands out its handle.
    pub fn new_pair(&mut self, first: LispObject, second: LispObject) -> (cons: LispCons)
        ensures
            final(self)@ == old(self)@.push(PairNode { first, second }),
            cons.0 == old(self)@.len(),
    {
        let index = self.cells.len();
        self.cells.push(PairNode { first, second });
        LispCons(index)
    }

    /// Rewrites the first slot of a node.
    pub fn set_first(&mut self, cons: LispCons, value: LispObject)
        requires
            cons.0 < old(self)@.len(),
        ensures
            final(self)@ == old(self)@.update(
                cons.0 as int,
                PairNode { first: value, second: old(self)@[cons.0 as int].second },
            ),
    {
        let second = self.cells[cons.0].second;
        self.cells[cons.0] = PairNode { first: value, second };
    }

    /// Rewrites the second slot of a node, which relinks the chain through it.
    pub fn set_second(&mut self, cons: LispCons, value: LispObject)
        requires
            cons.0 < old(self)@.len(),
        ensures
            final(self)@ == old(self)@.update(
                cons.0 as int,
                PairNode { first: old(self)@[cons.0 as int].first, second: value },
            ),
    {
        let first = self.cells[cons.0].first;
        self.cells[cons.0] = PairNode { first, second: value };
    }

    /// The node that `v` denotes, if it denotes one of this arena.
    pub fn pair_at(&self, v: LispObject) -> (r: Option<(LispCons, PairNode)>)
        ensures
            r is Some <==> is_pair(self@, v),
            r matches Some((cons, node)) ==> cons.0 == v->Cons_0 && node == self@[cons.0 as int],
    {
        match v {
            LispObject::Cons(i) => {
                if i < self.cells.len() {
                    Some((LispCons(i), self.cells[i]))
                } else {
                    None
                }
            },
            _ => None,
        }
    }
}

/// Whether a walker objects to a chain that ends in something other than the
/// terminator.
#[allow(non_camel_case_types)]
#[derive(Clone, Copy, Debug, PartialEq, Eq, Structural)]
pub enum LispConsEndChecks {
    /// Any value that is no pair node ends the walk quietly.
    off,
    /// A tail that is neither a pair node nor the terminator is an error.
    on,
}

/// What a walker does about a chain that leads back into itself.
#[allow(non_camel_case_types)]
#[derive(Clone, Copy, Debug, PartialEq, Eq, Structural)]
pub enum LispConsCircularChecks {
    /// Nothing is compared; a circular chain is walked without end.
    off,
    /// A detected cycle ends the walk quietly.
    safe,
    /// A detected cycle is an error.
    on,
}

/// How many links a walker advances between the nodes it hands out.
#[derive(Clone, Copy, Debug, PartialEq, Eq, Structural)]
pub enum Stride {
    /// Every node: plain chains.
    One,
    /// Every other node: chains of alternating keys and values.
    Two,
}

/// How the latest step of a walker ended.
#[derive(Clone, Copy, Debug, PartialEq, Eq, Structural)]
pub enum WalkerState {
    /// The latest step handed out a node, or none has been taken yet.
    Running,
    /// The walk reached a tail that is no pair node, and that was no error.
    ExhaustedClean,
    /// The walk reached a tail that is neither a pair node nor the
    /// terminator, and end checks were on.
    ExhaustedMalformed,
    /// The walk met its tortoise again.
    CycleDetected,
}

/// What one step of a walker produces: a node, the end of the walk, or an error.
pub type StepResult = Result<Option<LispCons>, LispError>;

/// The state of one walk. It is both what a walker stores and the model that
/// its contracts speak of.
#[derive(Clone, Copy, Debug, PartialEq, Eq, Structural)]
pub struct Traversal {
    /// Where the walk began.
    pub head: LispObject,
    /// The unconsumed tail.
    pub current: LispObject,
    /// The node against which `current` is compared.
    pub tortoise: LispObject,
    /// The number of links between two moves of the tortoise.
    pub step_budget: u128,
    /// The number of links left until the tortoise moves next.
    pub step_counter: u128,
    pub stride: Stride,
    /// Whether a node has been asked for before.
    pub started: bool,
    /// The shape to report when end checks are on.
    pub end_error: Option<TypePredicate>,
    pub cycle_policy: LispConsCircularChecks,
    pub state: WalkerState,
}

/// A step budget after doubling. A budget too large to double stays as it is.
pub open spec fn doubled(budget: u128) -> u128 {
    if budget <= u128::MAX / 2 {
        (2 * budget) as u128
    } else {
        budget
    }
}

impl Traversal {
    /// A walk that has not taken a step.
    pub open spec fn start(
        head: LispObject,
        end_error: Option<TypePredicate>,
        cycle_policy: LispConsCircularChecks,
    ) -> Traversal {
        Traversal {
            head,
            current: head,
            tortoise: head,
            step_budget: 2,
            step_counter: 2,
            stride: Stride::One,
            started: false,
            end_error,
            cycle_policy,
            state: WalkerState::Running,
        }
    }

    /// The counters are in step with each other.
    pub open spec fn wf(self) -> bool {
        2 <= self.step_budget && 1 <= self.step_counter <= self.step_budget
    }

    /// Follows one link. Compares `current` with the tortoise after every link
    /// but the last of a budget; after the last, the budget doubles and the
    /// tortoise moves to `current`.
    pub open spec fn step(self, cells: Seq<PairNode>) -> (Traversal, StepResult) {
        if !is_pair(cells, self.current) {
            if self.current != LispObject::Nil && self.end_error is Some {
                (
                    Traversal { state: WalkerState::ExhaustedMalformed, ..self },
                    Err(LispError::WrongStructure(self.end_error->Some_0, self.head)),
                )
            } else {
                (Traversal { state: WalkerState::ExhaustedClean, ..self }, Ok(None))
            }
        } else {
            let node = LispCons(self.current->Cons_0);
            let next = rest_of(cells, self.current);
            if self.cycle_policy == LispConsCircularChecks::off {
                (Traversal { current: next, state: WalkerState::Running, ..self }, Ok(Some(node)))
            } else if self.step_counter == 1 {
                (
                    Traversal {
                        current: next,
                        tortoise: next,
                        step_budget: doubled(self.step_budget),
                        step_counter: doubled(self.step_budget),
                        state: WalkerState::Running,
                        ..self
                    },
                    Ok(Some(node)),
                )
            } else if next == self.tortoise {
                (
                    Traversal {
                        current: next,
                        step_counter: (self.step_counter - 1) as u128,
                        state: WalkerState::CycleDetected,
                        ..self
                    },
                    if self.cycle_policy == LispConsCircularChecks::on {
                        Err(LispError::CircularStructure(next))
                    } else {
                        Ok(None)
                    },
                )
            } else {
                (
                    Traversal {
                        current: next,
                        step_counter: (self.step_counter - 1) as u128,
                        state: WalkerState::Running,
                        ..self
                    },
                    Ok(Some(node)),
                )
            }
        }
    }

    /// Produces the next node of the walk. The first request follows one link.
    /// Each later request of a stride-two walk first follows a link whose node
    /// it passes over, and stops there if that link ends the walk.
    pub open spec fn advance(self, cells: Seq<PairNode>) -> (Traversal, StepResult) {
        let begun = Traversal { started: true, ..self };
        if self.started && self.stride == Stride::Two {
            let (skipped, passed) = begun.step(cells);
            if passed matches Ok(Some(_)) {
                skipped.step(cells)
            } else {
                (skipped, passed)
            }
        } else {
            begun.step(cells)
        }
    }
}

/// A cycle-safe walker over the chain of pair nodes that starts at a head
/// value.
pub struct TailsIter {
    walk: Traversal,
}

impl View for TailsIter {
    type V = Traversal;

    closed spec fn view(&self) -> Traversal {
        self.walk
    }
}

impl TailsIter {
    /// A walker at the head of `list`. With end checks on, a malformed end is
    /// reported as a failure of `ty`.
    pub fn new(
        list: LispObject,
        ty: TypePredicate,
        end_checks: LispConsEndChecks,
        circular_checks: LispConsCircularChecks,
    ) -> (it: TailsIter)
        ensures
            it@ == Traversal::start(list, end_error(ty, end_checks), circular_checks),
            it@.wf(),
    {
        let end_error = match end_checks {
            LispConsEndChecks::on => Some(ty),
            _ => None,
        };
        TailsIter {
            walk: Traversal {
                head: list,
                current: list,
                tortoise: list,
                step_budget: 2,
                step_counter: 2,
                stride: Stride::One,
                started: false,
                end_error,
                cycle_policy: circular_checks,
                state: WalkerState::Running,
            },
        }
    }

    /// The same walker, handing out every node or every other node from here
    /// on.
    pub fn step_by(self, stride: Stride) -> (it: TailsIter)
        ensures
            it@ == (Traversal { stride, ..self@ }),
    {
        let mut walk = self.walk;
        walk.stride = stride;
        TailsIter { walk }
    }

    /// The unconsumed tail, which need not be a pair node. The walker does not
    /// move.
    pub fn rest(&self) -> (tail: LispObject)
        ensures
            tail == self@.current,
    {
        self.walk.current
    }

    /// How the latest step ended. After a walk under the `safe` policy has
    /// stopped, this tells a detected cycle from the end of the chain.
    pub fn state(&self) -> (state: WalkerState)
        ensures
            state == self@.state,
    {
        self.walk.state
    }

    /// Accounts for one link just followed, `cons` being the node left behind.
    /// Only for walks whose cycle policy is `safe` or `on`.
    fn check_circular(&mut self, cons: LispCons) -> (r: StepResult)
        requires
            old(self)@.wf(),
            old(self)@.cycle_policy != LispConsCircularChecks::off,
        ensures
            final(self)@.wf(),
            final(self)@ == (Traversal {
                tortoise: if old(self)@.step_counter == 1 {
                    old(self)@.current
                } else {
                    old(self)@.tortoise
                },
                step_budget: if old(self)@.step_counter == 1 {
                    doubled(old(self)@.step_budget)
                } else {
                    old(self)@.step_budget
                },
                step_counter: if old(self)@.step_counter == 1 {
                    doubled(old(self)@.step_budget)
                } else {
                    (old(self)@.step_counter - 1) as u128
                },
                state: if old(self)@.step_counter != 1 && old(self)@.current == old(self)@.tortoise {
                    WalkerState::CycleDetected
                } else {
                    WalkerState::Running
                },
                ..old(self)@
            }),
            r == if old(self)@.step_counter != 1 && old(self)@.current == old(self)@.tortoise {
                if old(self)@.cycle_policy == LispConsCircularChecks::on {
                    Err::<Option<LispCons>, LispError>(
                        LispError::CircularStructure(old(self)@.current),
                    )
                } else {
                    Ok(None)
                }
            } else {
                Ok(Some(cons))
            },
    {
        self.walk.step_counter = self.walk.step_counter - 1;
        if self.walk.step_counter != 0 {
            if self.walk.current == self.walk.tortoise {
                self.walk.state = WalkerState::CycleDetected;
                match self.walk.cycle_policy {
                    LispConsCircularChecks::on => {
                        return Err(circular_list(self.walk.current));
                    },
                    _ => {
                        return Ok(None);
                    },
                }
            }
        } else {
            if self.walk.step_budget <= u128::MAX / 2 {
                self.walk.step_budget = 2 * self.walk.step_budget;
            }
            self.walk.step_counter = self.walk.step_budget;
            self.walk.tortoise = self.walk.current;
        }
        self.walk.state = WalkerState::Running;
        Ok(Some(cons))
    }

    /// Follows one link.
    fn step(&mut self, arena: &PairArena) -> (r: StepResult)
        requires
            old(self)@.wf(),
        ensures
            final(self)@.wf(),
            (final(self)@, r) == old(self)@.step(arena@),
    {
        match arena.pair_at(self.walk.current) {
            None => {
                if self.walk.current.is_not_nil() {
                    if let Some(errsym) = self.walk.end_error {
                        self.walk.state = WalkerState::ExhaustedMalformed;
                        return Err(LispError::WrongStructure(errsym, self.walk.head));
                    }
                }
                self.walk.state = WalkerState::ExhaustedClean;
                Ok(None)
            },
            Some((cons, node)) => {
                self.walk.current = node.second;
                match self.walk.cycle_policy {
                    LispConsCircularChecks::off => {
                        self.walk.state = WalkerState::Running;
                        Ok(Some(cons))
                    },
                    _ => self.check_circular(cons),
                }
            },
        }
    }

    /// Hands out the next node of the walk: `Ok(Some(..))` with the node,
    /// `Ok(None)` when the walk has ended, or the error that the policies ask
    /// for. The walker reads the arena as it is now, so the chain may have
    /// been rewritten since the previous call.
    pub fn next(&mut self, arena: &PairArena) -> (r: StepResult)
        requires
            old(self)@.wf(),
        ensures
            final(self)@.wf(),
            (final(self)@, r) == old(self)@.advance(arena@),
            r matches Ok(Some(cons)) ==> cons.0 < arena@.len(),
            old(self)@.tracks(arena@) && is_node(r) ==> final(self)@.tracks(arena@) && final(self)@.fuel(
                arena@,
            ) < old(self)@.fuel(arena@),
    {
        proof {
            if old(self)@.tracks(arena@) && is_node(old(self)@.advance(arena@).1) {
                lemma_advance_tracks(old(self)@, arena@);
            }
        }
        let skip = self.walk.started && self.walk.stride == Stride::Two;
        self.walk.started = true;
        if skip {
            match self.step(arena) {
                Ok(Some(_)) => {},
                Ok(None) => {
                    return Ok(None);
                },
                Err(e) => {
                    return Err(e);
                },
            }
        }
        self.step(arena)
    }
}

/// The error that a circular chain is reported with.
pub fn circular_list(obj: LispObject) -> (e: LispError)
    ensures
        e == LispError::CircularStructure(obj),
{
    LispError::CircularStructure(obj)
}

impl LispObject {
    /// Passes a pair node and the terminator; anything else is the wrong
    /// type for a list.
    pub fn check_list(self) -> (r: Result<(), LispError>)
        ensures
            r == if self is Cons || self == LispObject::Nil {
                Ok::<(), LispError>(())
            } else {
                Err(LispError::WrongType(TypePredicate::Listp, self))
            },
    {
        if !(self.is_cons() || self.is_nil()) {
            return Err(LispError::WrongType(TypePredicate::Listp, self));
        }
        Ok(())
    }

    /// Whether this is a handle to a pair node.
    pub fn is_cons(self) -> (r: bool)
        ensures
            r == (self is Cons),
    {
        match self {
            LispObject::Cons(_) => true,
            _ => false,
        }
    }

    /// The pair node that this is a handle to.
    pub fn as_cons(self) -> (r: Option<LispCons>)
        ensures
            r == if self is Cons {
                Some(LispCons(self->Cons_0))
            } else {
                None
            },
    {
        match self {
            LispObject::Cons(i) => Some(LispCons(i)),
            _ => None,
        }
    }

    /// The pair node that this is a handle to; anything else is the wrong
    /// type.
    pub fn as_cons_or_error(self) -> (r: Result<LispCons, LispError>)
        ensures
            r == if self is Cons {
                Ok::<LispCons, LispError>(LispCons(self->Cons_0))
            } else {
                Err(LispError::WrongType(TypePredicate::Consp, self))
            },
    {
        match self.as_cons() {
            Some(cons) => Ok(cons),
            None => Err(LispError::WrongType(TypePredicate::Consp, self)),
        }
    }

    /// Creates a pair node in `arena` and hands out the handle to it.
    pub fn cons(arena: &mut PairArena, car: LispObject, cdr: LispObject) -> (r: LispObject)
        ensures
            final(arena)@ == old(arena)@.push(PairNode { first: car, second: cdr }),
            r == LispObject::Cons(old(arena)@.len() as usize),
    {
        proof {
            arena.lemma_len();
        }
        let cons = arena.new_pair(car, cdr);
        LispObject::Cons(cons.0)
    }

    /// Whether this is a handle to a pair node, or the terminator.
    pub fn is_list(self) -> (r: bool)
        ensures
            r == (self is Cons || self == LispObject::Nil),
    {
        self.is_cons() || self.is_nil()
    }

    /// A walker over the tails of the chain from here, which reports a
    /// malformed end as a failure of `Listp`.
    pub fn iter_tails_v2(
        self,
        end_checks: LispConsEndChecks,
        circular_checks: LispConsCircularChecks,
    ) -> (it: TailsIter)
        ensures
            it@ == Traversal::start(self, end_error(TypePredicate::Listp, end_checks), circular_checks),
            it@.wf(),
    {
        TailsIter::new(self, TypePredicate::Listp, end_checks, circular_checks)
    }

    /// A walker over the tails of the chain from here, which reports a
    /// malformed end as a failure of `Plistp`.
    pub fn iter_tails_plist_v2(
        self,
        end_checks: LispConsEndChecks,
        circular_checks: LispConsCircularChecks,
    ) -> (it: TailsIter)
        ensures
            it@ == Traversal::start(self, end_error(TypePredicate::Plistp, end_checks), circular_checks),
            it@.wf(),
    {
        TailsIter::new(self, TypePredicate::Plistp, end_checks, circular_checks)
    }

    /// A walker over the tails of the chain from here, which should be a
    /// list: a chain of pair nodes that ends in the terminator. With end
    /// checks on, any other end is an error.
    pub fn iter_tails(
        self,
        end_checks: LispConsEndChecks,
        circular_checks: LispConsCircularChecks,
    ) -> (it: TailsIter)
        ensures
            it@ == Traversal::start(self, end_error(TypePredicate::Listp, end_checks), circular_checks),
            it@.wf(),
    {
        TailsIter::new(self, TypePredicate::Listp, end_checks, circular_checks)
    }

    /// A walker over the tails of the chain from here, which should be a
    /// property list: a list of alternating keys and values. With end checks
    /// on, an end other than the terminator is an error.
    pub fn iter_tails_plist(
        self,
        end_checks: LispConsEndChecks,
        circular_checks: LispConsCircularChecks,
    ) -> (it: TailsIter)
        ensures
            it@ == Traversal::start(self, end_error(TypePredicate::Plistp, end_checks), circular_checks),
            it@.wf(),
    {
        TailsIter::new(self, TypePredicate::Plistp, end_checks, circular_checks)
    }

    /// A walker over the first slots of the pair nodes of the chain from
    /// here.
    pub fn iter_cars(
        self,
        end_checks: LispConsEndChecks,
        circular_checks: LispConsCircularChecks,
    ) -> (it: CarIter)
        ensures
            it@ == Traversal::start(self, end_error(TypePredicate::Listp, end_checks), circular_checks),
            it@.wf(),
    {
        CarIter::new(TailsIter::new(self, TypePredicate::Listp, end_checks, circular_checks))
    }
}

/// The shape that a walker reports at a malformed end, if end checks are on.
pub open spec fn end_error(ty: TypePredicate, end_checks: LispConsEndChecks) -> Option<TypePredicate> {
    if end_checks == LispConsEndChecks::on {
        Some(ty)
    } else {
        None
    }
}

/// A walker that hands out the first slot of every pair node that a tails
/// walker hands out.
pub struct CarIter(TailsIter);

impl View for CarIter {
    type V = Traversal;

    closed spec fn view(&self) -> Traversal {
        self.0@
    }
}

impl CarIter {
    /// A walker over the first slots of what `tails` walks.
    pub fn new(tails: TailsIter) -> (it: CarIter)
        ensures
            it@ == tails@,
    {
        CarIter(tails)
    }

    /// The unconsumed tail.
    pub fn rest(&self) -> (tail: LispObject)
        ensures
            tail == self@.current,
    {
        self.0.rest()
    }

    /// Hands out the first slot of the next node of the walk.
    pub fn next(&mut self, arena: &PairArena) -> (r: Result<Option<LispObject>, LispError>)
        requires
            old(self)@.wf(),
        ensures
            final(self)@.wf(),
            final(self)@ == old(self)@.advance(arena@).0,
            r == match old(self)@.advance(arena@).1 {
                Ok(Some(cons)) => Ok::<Option<LispObject>, LispError>(Some(arena@[cons.0 as int].first)),
                Ok(None) => Ok(None),
                Err(e) => Err(e),
            },
            old(self)@.tracks(arena@) && is_node(old(self)@.advance(arena@).1) ==> final(self)@.tracks(
                arena@,
            ) && final(self)@.fuel(arena@) < old(self)@.fuel(arena@),
    {
        match self.0.next(arena) {
            Ok(Some(cons)) => Ok(Some(cons.car(arena))),
            Ok(None) => Ok(None),
            Err(e) => Err(e),
        }
    }
}

impl LispCons {
    /// The first slot.
    pub fn car(self, arena: &PairArena) -> (r: LispObject)
        requires
            self.0 < arena@.len(),
        ensures
            r == arena@[self.0 as int].first,
    {
        arena.node(self).first
    }

    /// The second slot.
    pub fn cdr(self, arena: &PairArena) -> (r: LispObject)
        requires
            self.0 < arena@.len(),
        ensures
            r == arena@[self.0 as int].second,
    {
        arena.node(self).second
    }

    /// Both slots.
    pub fn as_tuple(self, arena: &PairArena) -> (r: (LispObject, LispObject))
        requires
            self.0 < arena@.len(),
        ensures
            r == (arena@[self.0 as int].first, arena@[self.0 as int].second),
    {
        (self.car(arena), self.cdr(arena))
    }

    /// Rewrites the first slot.
    pub fn set_car(self, arena: &mut PairArena, n: LispObject)
        requires
            self.0 < old(arena)@.len(),
        ensures
            final(arena)@ == old(arena)@.update(
                self.0 as int,
                PairNode { first: n, second: old(arena)@[self.0 as int].second },
            ),
    {
        arena.set_first(self, n);
    }

    /// Rewrites the second slot.
    pub fn set_cdr(self, arena: &mut PairArena, n: LispObject)
        requires
            self.0 < old(arena)@.len(),
        ensures
            final(arena)@ == old(arena)@.update(
                self.0 as int,
                PairNode { first: old(arena)@[self.0 as int].first, second: n },
            ),
    {
        arena.set_second(self, n);
    }

    /// The handle as a value.
    pub fn as_object(self) -> (r: LispObject)
        ensures
            r == LispObject::Cons(self.0),
    {
        LispObject::Cons(self.0)
    }

    /// A walker over the tails of the chain from this node.
    pub fn iter_tails(
        self,
        end_checks: LispConsEndChecks,
        circular_checks: LispConsCircularChecks,
    ) -> (it: TailsIter)
        ensures
            it@ == Traversal::start(
                LispObject::Cons(self.0),
                end_error(TypePredicate::Listp, end_checks),
                circular_checks,
            ),
            it@.wf(),
    {
        TailsIter::new(LispObject::Cons(self.0), TypePredicate::Listp, end_checks, circular_checks)
    }

    /// A walker over the first slots of the chain from this node.
    pub fn iter_cars(
        self,
        end_checks: LispConsEndChecks,
        circular_checks: LispConsCircularChecks,
    ) -> (it: CarIter)
        ensures
            it@ == Traversal::start(
                LispObject::Cons(self.0),
                end_error(TypePredicate::Listp, end_checks),
                circular_checks,
            ),
            it@.wf(),
    {
        CarIter::new(
            TailsIter::new(LispObject::Cons(self.0), TypePredicate::Listp, end_checks, circular_checks),
        )
    }
}

impl LispObject {
    /// The pair node of a list that has one: nothing for a value that is no
    /// list, the node for a pair node. The empty list has no node to hand
    /// out, which is an error.
    pub fn as_cons_if_list(self) -> (r: Result<Option<LispCons>, LispError>)
        ensures
            r == if self is Cons {
                Ok::<Option<LispCons>, LispError>(Some(LispCons(self->Cons_0)))
            } else if self == LispObject::Nil {
                Err(LispError::WrongType(TypePredicate::Consp, self))
            } else {
                Ok(None)
            },
    {
        if self.is_list() {
            match self.as_cons_or_error() {
                Ok(cons) => Ok(Some(cons)),
                Err(e) => Err(e),
            }
        } else {
            Ok(None)
        }
    }
}

impl From<LispCons> for LispObject {
    fn from(c: LispCons) -> (r: LispObject) {
        LispObject::Cons(c.0)
    }
}

impl vstd::std_specs::convert::FromSpecImpl<LispCons> for LispObject {
    open spec fn obeys_from_spec() -> bool {
        true
    }

    open spec fn from_spec(c: LispCons) -> LispObject {
        LispObject::Cons(c.0)
    }
}

impl TryFrom<LispObject> for LispCons {
    type Error = LispError;

    fn try_from(o: LispObject) -> (r: Result<LispCons, LispError>) {
        o.as_cons_or_error()
    }
}

impl vstd::std_specs::convert::TryFromSpecImpl<LispObject> for LispCons {
    open spec fn obeys_try_from_spec() -> bool {
        true
    }

    open spec fn try_from_spec(o: LispObject) -> Result<LispCons, LispError> {
        if o is Cons {
            Ok(LispCons(o->Cons_0))
        } else {
            Err(LispError::WrongType(TypePredicate::Consp, o))
        }
    }
}

} // verus!
