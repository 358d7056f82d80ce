use vstd::prelude::*;
use crate::card::{suite_index, suite_of_index, Card, Suite};
use crate::rng::rand_below;
use crate::stack::{bit32, lemma_and_bits, lemma_clear_bit, lemma_nonzero_has_bit, lemma_not_bits, lemma_pc_bound, lemma_pc_or_bit, lemma_pc_zero, lemma_set_bit, lemma_zero_bit, pc32, Stack};

verus! {

/// A move: either laying a card into the trick, or the dealer naming the
/// trump suit (`None` stands for playing the round without a trump).
#[derive(Clone, Copy, Debug)]
pub enum Action {
    PlayCard(Card),
    PickTrump(Option<Suite>),
}

/// The set of legal moves of one state, in the phase's own encoding:
/// a card bit mask while cards are played, a 4-bit suit mask plus the
/// explicit no-trump flag while the trump is picked. `Uninit` is the
/// value of a container that has not been given a phase yet.
#[derive(Clone, Copy, Debug)]
pub enum ActionCollection {
    Uninit,
    Cards(Stack),
    Trumps { suites: u8, no_trump: bool },
}

/// Membership of an action in a collection.
pub open spec fn ac_has(ac: ActionCollection, a: Action) -> bool {
    match ac {
        ActionCollection::Uninit => false,
        ActionCollection::Cards(s) => match a {
            Action::PlayCard(c) => c.index < 32 && bit32(s.bits, c.index as u32),
            Action::PickTrump(_) => false,
        },
        ActionCollection::Trumps { suites, no_trump } => match a {
            Action::PlayCard(_) => false,
            Action::PickTrump(t) => match t {
                Some(su) => bit32(suites as u32, suite_index(su)),
                None => no_trump,
            },
        },
    }
}

/// Number of actions in a collection.
pub open spec fn ac_len(ac: ActionCollection) -> nat {
    match ac {
        ActionCollection::Uninit => 0,
        ActionCollection::Cards(s) => pc32(s.bits),
        ActionCollection::Trumps { suites, no_trump } => pc32(suites as u32) + if no_trump {
            1nat
        } else {
            0nat
        },
    }
}

/// Set difference of two collections at the spec level; kinds other
/// than the left one's own are ignored.
pub open spec fn spec_without(a: ActionCollection, b: ActionCollection) -> ActionCollection {
    match (a, b) {
        (ActionCollection::Cards(x), ActionCollection::Cards(y)) => ActionCollection::Cards(
            Stack { bits: x.bits & !y.bits },
        ),
        (
            ActionCollection::Trumps { suites: x, no_trump: nx },
            ActionCollection::Trumps { suites: y, no_trump: ny },
        ) => ActionCollection::Trumps { suites: x & !y, no_trump: nx && !ny },
        _ => a,
    }
}

/// What the spec-level set difference holds: for matching kinds exactly
/// the left members absent from the right; other pairings leave the left
/// collection as it is.
pub proof fn lemma_without_has(a: ActionCollection, b: ActionCollection, x: Action)
    ensures
        match (a, b) {
            (ActionCollection::Cards(_), ActionCollection::Cards(_)) => ac_has(
                spec_without(a, b),
                x,
            ) == (ac_has(a, x) && !ac_has(b, x)),
            (ActionCollection::Trumps { .. }, ActionCollection::Trumps { .. }) => ac_has(
                spec_without(a, b),
                x,
            ) == (ac_has(a, x) && !ac_has(b, x)),
            _ => spec_without(a, b) == a,
        },
{
    match (a, b) {
        (ActionCollection::Cards(s), ActionCollection::Cards(o)) => {
            lemma_and_bits(s.bits, !o.bits);
            lemma_not_bits(o.bits);
        },
        (
            ActionCollection::Trumps { suites: s, no_trump: _ },
            ActionCollection::Trumps { suites: o, no_trump: _ },
        ) => {
            assert(((s & !o) as u32) == ((s as u32) & !(o as u32))) by (bit_vector);
            lemma_and_bits(s as u32, !(o as u32));
            lemma_not_bits(o as u32);
            match x {
                Action::PickTrump(Some(su)) => {
                    assert(suite_index(su) < 32);
                },
                _ => {},
            }
        },
        _ => {},
    }
}

/// A collection counted empty holds no action.
pub proof fn lemma_ac_empty_has_none(ac: ActionCollection)
    requires
        ac_len(ac) == 0,
    ensures
        forall|x: Action| !(#[trigger] ac_has(ac, x)),
{
    assert forall|x: Action| !(#[trigger] ac_has(ac, x)) by {
        match ac {
            ActionCollection::Uninit => {},
            ActionCollection::Cards(s) => {
                lemma_pc_zero(s.bits);
                match x {
                    Action::PlayCard(c) => {
                        lemma_zero_bit(c.index as u32);
                    },
                    Action::PickTrump(_) => {},
                }
            },
            ActionCollection::Trumps { suites, no_trump } => {
                lemma_pc_zero(suites as u32);
                match x {
                    Action::PickTrump(Some(su)) => {
                        lemma_zero_bit(suite_index(su));
                    },
                    _ => {},
                }
            },
        }
    }
}

/// A collection counted non-empty holds some action.
pub proof fn lemma_ac_nonempty_has(ac: ActionCollection)
    requires
        ac_wf(ac),
        ac_len(ac) > 0,
    ensures
        exists|x: Action| #[trigger] ac_has(ac, x),
{
    match ac {
        ActionCollection::Uninit => {
            assert(false);
        },
        ActionCollection::Cards(s) => {
            lemma_pc_zero(s.bits);
            lemma_nonzero_has_bit(s.bits);
            let j = choose|j: u32| j < 32 && bit32(s.bits, j);
            assert(ac_has(ac, Action::PlayCard(Card { index: j as u8 })));
        },
        ActionCollection::Trumps { suites, no_trump } => {
            if no_trump {
                assert(ac_has(ac, Action::PickTrump(None)));
            } else {
                let sv: u32 = suites as u32;
                lemma_pc_zero(sv);
                lemma_nonzero_has_bit(sv);
                let j = choose|j: u32| j < 32 && #[trigger] bit32(sv, j);
                assert((sv >> j) & 1 == 1 && sv < 16 ==> j < 4) by (bit_vector);
                assert(ac_has(ac, Action::PickTrump(Some(suite_of_index(j)))));
            }
        },
    }
}

/// Structural soundness: a trump mask only ever holds the four suit bits.
pub open spec fn ac_wf(ac: ActionCollection) -> bool {
    match ac {
        ActionCollection::Trumps { suites, no_trump } => suites < 16,
        _ => true,
    }
}

/// The capability contract of a legal-move container, as the search layer
/// uses it: random removal, insertion, size, membership and set difference.
pub trait ActionList<T> where Self: core::marker::Sized {
    /// The container's structural invariant.
    spec fn inv(&self) -> bool;

    /// How many actions the container holds.
    spec fn spec_len(&self) -> nat;

    /// Whether the container holds the action.
    spec fn spec_has(&self, item: T) -> bool;

    fn uninit() -> (r: Self)
        ensures
            r.inv(),
            r.spec_len() == 0,
    ;

    fn pop_random(&mut self) -> (r: Option<T>)
        requires
            old(self).inv(),
        ensures
            final(self).inv(),
            match r {
                None => final(self).spec_len() == 0 && old(self).spec_len() == 0,
                Some(a) => old(self).spec_has(a) && !final(self).spec_has(a)
                    && final(self).spec_len() == old(self).spec_len() - 1,
            },
    ;

    fn push(&mut self, action: T)
        requires
            old(self).inv(),
        ensures
            final(self).inv(),
    ;

    fn len(&self) -> (r: usize)
        requires
            self.inv(),
        ensures
            r == self.spec_len(),
    ;

    fn is_empty(&self) -> (r: bool)
        requires
            self.inv(),
        ensures
            r == (self.spec_len() == 0),
    ;

    fn has(&self, item: &T) -> (r: bool)
        requires
            self.inv(),
        ensures
            r == self.spec_has(*item),
    ;

    fn without(&self, other: &Self) -> (r: Self)
        requires
            self.inv(),
            other.inv(),
        ensures
            r.inv(),
            forall|x: T| #[trigger] r.spec_has(x) ==> self.spec_has(x),
    ;
}

impl ActionCollection {
    /// Membership test.
    pub fn contains(&self, a: &Action) -> (r: bool)
        requires
            ac_wf(*self),
        ensures
            r == ac_has(*self, *a),
    {
        match self {
            ActionCollection::Uninit => false,
            ActionCollection::Cards(s) => match a {
                Action::PlayCard(c) => {
                    let i = c.get_index();
                    i < 32 && s.has_index(i as u32)
                },
                Action::PickTrump(_) => false,
            },
            ActionCollection::Trumps { suites, no_trump } => match a {
                Action::PlayCard(_) => false,
                Action::PickTrump(t) => match t {
                    Some(su) => {
                        let k = su.index();
                        ((*suites as u32) >> k) & 1 == 1
                    },
                    None => *no_trump,
                },
            },
        }
    }

    /// Number of actions held.
    pub fn size(&self) -> (r: usize)
        requires
            ac_wf(*self),
        ensures
            r == ac_len(*self),
    {
        match self {
            ActionCollection::Uninit => 0,
            ActionCollection::Cards(s) => {
                proof {
                    lemma_pc_bound(s.bits);
                }
                s.len() as usize
            },
            ActionCollection::Trumps { suites, no_trump } => {
                let mask = Stack { bits: *suites as u32 };
                proof {
                    lemma_pc_bound(mask.bits);
                }
                let base = mask.len() as usize;
                if *no_trump {
                    base + 1
                } else {
                    base
                }
            },
        }
    }

    pub fn empty(&self) -> (r: bool)
        requires
            ac_wf(*self),
        ensures
            r == (ac_len(*self) == 0),
    {
        self.size() == 0
    }

    /// Remove and return a uniformly random action; `None` when empty.
    pub fn pop_random(&mut self) -> (r: Option<Action>)
        requires
            ac_wf(*old(self)),
        ensures
            ac_wf(*final(self)),
            match r {
                None => *final(self) == *old(self) && ac_len(*old(self)) == 0,
                Some(a) => ac_has(*old(self), a) && !ac_has(*final(self), a) && ac_len(
                    *final(self),
                ) == ac_len(*old(self)) - 1 && forall|b: Action|
                    b != a ==> ac_has(*final(self), b) == ac_has(*old(self), b),
            },
    {
        let n = self.size();
        if n == 0 {
            return None;
        }
        let k = rand_below(n);
        let cur = *self;
        match cur {
            ActionCollection::Uninit => {
                proof {
                    assert(false);
                }
                None
            },
            ActionCollection::Cards(s) => {
                let i = s.nth_index(k as u32);
                let nb = s.bits & !(1u32 << i);
                *self = ActionCollection::Cards(Stack { bits: nb });
                let a = Action::PlayCard(Card { index: i as u8 });
                proof {
                    lemma_clear_bit(s.bits, i);
                    assert forall|b: Action| b != a implies ac_has(*self, b) == ac_has(cur, b) by {
                        match b {
                            Action::PlayCard(c) => {
                                if c.index < 32 {
                                    assert(c.index as u32 != i);
                                    assert(bit32(nb, c.index as u32) == bit32(
                                        s.bits,
                                        c.index as u32,
                                    ));
                                }
                            },
                            Action::PickTrump(_) => {},
                        }
                    }
                }
                Some(a)
            },
            ActionCollection::Trumps { suites, no_trump } => {
                let mask = Stack { bits: suites as u32 };
                proof {
                    lemma_pc_bound(mask.bits);
                }
                let cnt = mask.len() as usize;
                if k < cnt {
                    let i = mask.nth_index(k as u32);
                    proof {
                        assert(((suites as u32) >> i) & 1 == 1 && suites < 16 ==> i < 4)
                            by (bit_vector);
                    }
                    let nb = suites & !(1u8 << (i as u8));
                    proof {
                        assert((nb as u32) == ((suites as u32) & !(1u32 << i)) && nb < 16)
                            by (bit_vector)
                            requires
                                nb == suites & !(1u8 << (i as u8)),
                                suites < 16,
                                i < 4,
                        ;
                        lemma_clear_bit(suites as u32, i);
                    }
                    *self = ActionCollection::Trumps { suites: nb, no_trump };
                    let su = Suite::from_index(i);
                    let a = Action::PickTrump(Some(su));
                    proof {
                        assert forall|b: Action| b != a implies ac_has(*self, b) == ac_has(cur, b)
                        by {
                            match b {
                                Action::PickTrump(t) => match t {
                                    Some(su2) => {
                                        assert(suite_index(su2) != i);
                                        assert(bit32(nb as u32, suite_index(su2)) == bit32(
                                            suites as u32,
                                            suite_index(su2),
                                        ));
                                    },
                                    None => {},
                                },
                                Action::PlayCard(_) => {},
                            }
                        }
                    }
                    Some(a)
                } else {
                    *self = ActionCollection::Trumps { suites, no_trump: false };
                    Some(Action::PickTrump(None))
                }
            },
        }
    }

    /// Insert an action. The action's kind must fit the collection's
    /// phase; an uninitialized collection takes the kind of its first
    /// insertion.
    pub fn insert(&mut self, a: Action)
        requires
            ac_wf(*old(self)),
            match *old(self) {
                ActionCollection::Uninit => true,
                ActionCollection::Cards(_) => a is PlayCard,
                ActionCollection::Trumps { .. } => a is PickTrump,
            },
            a matches Action::PlayCard(c) ==> c.index < 32,
        ensures
            ac_wf(*final(self)),
            ac_has(*final(self), a),
            forall|b: Action| b != a ==> ac_has(*final(self), b) == ac_has(*old(self), b),
    {
        let cur = *self;
        match a {
            Action::PlayCard(c) => {
                let i = c.get_index() as u32;
                let base: u32 = match cur {
                    ActionCollection::Cards(s) => s.bits,
                    _ => 0,
                };
                let nb = base | (1u32 << i);
                *self = ActionCollection::Cards(Stack { bits: nb });
                proof {
                    lemma_set_bit(base, i);
                    assert forall|b: Action| b != a implies ac_has(*self, b) == ac_has(cur, b) by {
                        match b {
                            Action::PlayCard(c2) => {
                                if c2.index < 32 {
                                    assert(c2.index as u32 != i);
                                    lemma_zero_bit(c2.index as u32);
                                    assert(bit32(nb, c2.index as u32) == bit32(
                                        base,
                                        c2.index as u32,
                                    ));
                                }
                            },
                            Action::PickTrump(_) => {},
                        }
                    }
                }
            },
            Action::PickTrump(t) => {
                let (base, nt): (u8, bool) = match cur {
                    ActionCollection::Trumps { suites, no_trump } => (suites, no_trump),
                    _ => (0, false),
                };
                match t {
                    Some(su) => {
                        let i = su.index();
                        let nb = base | (1u8 << (i as u8));
                        proof {
                            assert(nb < 16 && (nb as u32) == ((base as u32) | (1u32 << i)))
                                by (bit_vector)
                                requires
                                    nb == base | (1u8 << (i as u8)),
                                    base < 16,
                                    i < 4,
                            ;
                            lemma_set_bit(base as u32, i);
                        }
                        *self = ActionCollection::Trumps { suites: nb, no_trump: nt };
                        proof {
                            assert forall|b: Action| b != a implies ac_has(*self, b) == ac_has(
                                cur,
                                b,
                            ) by {
                                match b {
                                    Action::PickTrump(t2) => match t2 {
                                        Some(su2) => {
                                            assert(suite_index(su2) != i);
                                            lemma_zero_bit(suite_index(su2));
                                            assert(bit32(nb as u32, suite_index(su2)) == bit32(
                                                base as u32,
                                                suite_index(su2),
                                            ));
                                        },
                                        None => {},
                                    },
                                    Action::PlayCard(_) => {},
                                }
                            }
                        }
                    },
                    None => {
                        *self = ActionCollection::Trumps { suites: base, no_trump: true };
                        proof {
                            assert forall|b: Action| b != a implies ac_has(*self, b) == ac_has(
                                cur,
                                b,
                            ) by {
                                match b {
                                    Action::PickTrump(t2) => match t2 {
                                        Some(su2) => {
                                            lemma_zero_bit(suite_index(su2));
                                        },
                                        None => {},
                                    },
                                    Action::PlayCard(_) => {},
                                }
                            }
                        }
                    },
                }
            },
        }
    }

    /// Set difference: the actions of `self` that `other` lacks. Kinds
    /// other than `self`'s own are ignored.
    pub fn without(&self, other: &ActionCollection) -> (r: ActionCollection)
        requires
            ac_wf(*self),
            ac_wf(*other),
        ensures
            r == spec_without(*self, *other),
            ac_wf(r),
            match (*self, *other) {
                (ActionCollection::Cards(_), ActionCollection::Cards(_)) => forall|a: Action|
                    #[trigger] ac_has(r, a) == (ac_has(*self, a) && !ac_has(*other, a)),
                (ActionCollection::Trumps { .. }, ActionCollection::Trumps { .. }) => forall|
                    a: Action,
                |
                    #[trigger] ac_has(r, a) == (ac_has(*self, a) && !ac_has(*other, a)),
                _ => r == *self,
            },
    {
        match (self, other) {
            (ActionCollection::Cards(s), ActionCollection::Cards(o)) => {
                let sb = s.bits;
                let ob = o.bits;
                let nb = sb & !ob;
                proof {
                    assert(forall|j: u32|
                        j < 32 ==> ((#[trigger] ((sb & !ob) >> j)) & 1 == 1) == (((sb >> j) & 1
                            == 1) && !((ob >> j) & 1 == 1))) by (bit_vector);
                }
                ActionCollection::Cards(Stack { bits: nb })
            },
            (
                ActionCollection::Trumps { suites: s, no_trump: n },
                ActionCollection::Trumps { suites: so, no_trump: no },
            ) => {
                let nb = *s & !*so;
                proof {
                    assert(nb < 16 && (forall|j: u32|
                        j < 32 ==> ((#[trigger] ((nb as u32) >> j)) & 1 == 1) == ((((*s as u32)
                            >> j) & 1 == 1) && !(((*so as u32) >> j) & 1 == 1)))) by (bit_vector)
                        requires
                            nb == *s & !*so,
                            *s < 16,
                    ;
                }
                ActionCollection::Trumps { suites: nb, no_trump: *n && !*no }
            },
            _ => *self,
        }
    }
}

impl ActionList<Action> for ActionCollection {
    open spec fn inv(&self) -> bool {
        ac_wf(*self)
    }

    open spec fn spec_len(&self) -> nat {
        ac_len(*self)
    }

    open spec fn spec_has(&self, item: Action) -> bool {
        ac_has(*self, item)
    }

    fn uninit() -> Self {
        ActionCollection::Uninit
    }

    fn pop_random(&mut self) -> Option<Action> {
        ActionCollection::pop_random(self)
    }

    /// An action whose kind does not fit the container's phase (or a card
    /// index outside the deck) is ignored.
    fn push(&mut self, action: Action) {
        let fits = match (&*self, &action) {
            (ActionCollection::Uninit, Action::PlayCard(c)) => c.get_index() < 32,
            (ActionCollection::Uninit, Action::PickTrump(_)) => true,
            (ActionCollection::Cards(_), Action::PlayCard(c)) => c.get_index() < 32,
            (ActionCollection::Trumps { .. }, Action::PickTrump(_)) => true,
            _ => false,
        };
        if fits {
            ActionCollection::insert(self, action)
        }
    }

    fn len(&self) -> usize {
        self.size()
    }

    fn is_empty(&self) -> bool {
        self.empty()
    }

    fn has(&self, item: &Action) -> bool {
        self.contains(item)
    }

    fn without(&self, other: &Self) -> Self {
        ActionCollection::without(self, other)
    }
}

} // verus!
