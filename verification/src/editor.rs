//! The editor's context stack, and how a key press travels through it.
//!
//! The active context (the top of the stack) is forwarded each key press. While it handles the
//! key it may push new contexts; they wait until the key press has been handled. When a context
//! returns, it leaves the stack and its message is received by the context beneath it, which is
//! first set up if it never was active. Once no message is left, the pushed contexts go on the
//! stack and the topmost is set up; if it returns at once it leaves again, until one stays or
//! none is left. A context is set up once, when it first becomes active.
//!
//! The editor does the contexts' work (setting up, forwarding, receiving) and reports back
//! whether the context returned; [`ContextStack`] says what comes next.
use vstd::prelude::*;

verus! {

/// Where the handling of a key press stands.
#[derive(Copy, Clone, Debug, PartialEq, Eq, Structural)]
pub enum Phase {
    /// No key press is being handled.
    Idle,
    /// The active context has been taken off the stack to be forwarded the key press.
    Forwarding,
    /// A returned message travels down the stack.
    Propagating,
    /// Contexts pushed while handling the key press are being set up.
    Settling,
}

/// What the editor does next for a key press.
#[derive(Debug, PartialEq, Eq)]
pub enum Next<C> {
    /// Set up this context, which becomes active for the first time, and report whether it
    /// returned.
    SetUp(C),
    /// Hand the returned message to this context and report whether it returned in turn.
    Receive(C),
    /// The key press has been handled.
    Done,
    /// A message went past the bottom of the stack.
    Exhausted,
}

/// Letting a message travel down from the top of the stack `e` (with the pushed contexts
/// `p`) gives the stack `e2`, the pushed contexts `p2`, the phase `ph` and the next step `r`:
/// the context beneath takes it, after being set up if it never was; with no context left,
/// the message is lost.
pub open spec fn propagation<C>(
    e: Seq<(C, bool)>,
    p: Seq<C>,
    e2: Seq<(C, bool)>,
    p2: Seq<C>,
    ph: Phase,
    r: Next<C>,
) -> bool {
    if e.len() == 0 {
        e2 == e && p2 == p && ph == Phase::Idle && r is Exhausted
    } else {
        &&& e2 == e.drop_last()
        &&& p2 == p
        &&& ph == Phase::Propagating
        &&& r == if e.last().1 {
            Next::Receive(e.last().0)
        } else {
            Next::SetUp(e.last().0)
        }
    }
}

/// Settling the pushed contexts `p` onto the stack `e` gives the stack `e2`, the pushed
/// contexts `p2`, the phase `ph` and the next step `r`: with none pushed the key press is
/// handled; otherwise all go on the stack, not yet set up, and the topmost is taken off to
/// be set up.
pub open spec fn settling<C>(
    e: Seq<(C, bool)>,
    p: Seq<C>,
    e2: Seq<(C, bool)>,
    p2: Seq<C>,
    ph: Phase,
    r: Next<C>,
) -> bool {
    if p.len() == 0 {
        e2 == e && p2 == p && ph == Phase::Idle && r is Done
    } else {
        let all = e + p.map_values(|c: C| (c, false));
        &&& e2 == all.drop_last()
        &&& p2 == Seq::<C>::empty()
        &&& ph == Phase::Settling
        &&& r == Next::SetUp(all.last().0)
    }
}

/// A key press that the active context, already set up, handles without returning and
/// without pushing a context leaves the stack as it was, and is then handled.
pub proof fn lemma_quiet_key_keeps_stack<C>(
    e: Seq<(C, bool)>,
    e2: Seq<(C, bool)>,
    p2: Seq<C>,
    ph: Phase,
    r: Next<C>,
)
    requires
        e.len() > 0,
        e.last().1,
        settling(e.drop_last().push((e.last().0, true)), Seq::<C>::empty(), e2, p2, ph, r),
    ensures
        e2 == e,
        r is Done,
        ph == Phase::Idle,
{
    assert(e.drop_last().push((e.last().0, true)) =~= e);
}

/// Contexts pushed while a key press is handled go on the stack in the order they were
/// pushed, none of them set up, and the last one pushed is the first to be set up.
pub proof fn lemma_pushed_order<C>(
    e: Seq<(C, bool)>,
    p: Seq<C>,
    e2: Seq<(C, bool)>,
    p2: Seq<C>,
    ph: Phase,
    r: Next<C>,
)
    requires
        p.len() > 0,
        settling(e, p, e2, p2, ph, r),
    ensures
        r == Next::SetUp(p.last()),
        e2.len() == e.len() + p.len() - 1,
        forall|i: int| 0 <= i < e.len() ==> #[trigger] e2[i] == e[i],
        forall|i: int| 0 <= i < p.len() - 1 ==> #[trigger] e2[e.len() + i] == (p[i], false),
{
}

/// The stack of contexts, each with whether it has been set up, and the contexts pushed while
/// a key press is handled.
pub struct ContextStack<C> {
    stack: Vec<(C, bool)>,
    pending: Vec<C>,
    phase: Phase,
}

impl<C> ContextStack<C> {
    /// The contexts on the stack, bottom first, each with whether it has been set up.
    pub closed spec fn entries(&self) -> Seq<(C, bool)> {
        self.stack@
    }

    /// The contexts pushed and not yet on the stack, first pushed first.
    pub closed spec fn pushed(&self) -> Seq<C> {
        self.pending@
    }

    /// Where the handling of a key press stands.
    pub closed spec fn phase_view(&self) -> Phase {
        self.phase
    }

    /// A stack holding only `bottom`, which counts as set up.
    pub fn new(bottom: C) -> (s: Self)
        ensures
            s.entries() == seq![(bottom, true)],
            s.pushed() == Seq::<C>::empty(),
            s.phase_view() == Phase::Idle,
    {
        let mut stack: Vec<(C, bool)> = Vec::new();
        stack.push((bottom, true));
        ContextStack { stack, pending: Vec::new(), phase: Phase::Idle }
    }

    /// Where the handling of a key press stands.
    pub fn phase(&self) -> (ph: Phase)
        ensures
            ph == self.phase_view(),
    {
        self.phase
    }

    /// The number of contexts on the stack.
    pub fn len(&self) -> (n: usize)
        ensures
            n == self.entries().len(),
    {
        self.stack.len()
    }

    /// Pushes a context; it goes on the stack once the key press being handled is.
    pub fn push_context(&mut self, c: C)
        ensures
            context_pushed(*old(self), *final(self), c),
    {
        self.pending.push(c);
    }

    /// Takes the active context off the stack, to forward it a key press, if there is one.
    pub fn begin(&mut self) -> (r: Option<C>)
        requires
            old(self).phase_view() == Phase::Idle,
        ensures
            begun(*old(self), *final(self), r),
    {
        match self.stack.pop() {
            Some(top) => {
                self.phase = Phase::Forwarding;
                Some(top.0)
            },
            None => None,
        }
    }

    /// The context `c` was forwarded the key press; `returned` says whether it returned.
    pub fn forwarded(&mut self, c: C, returned: bool) -> (r: Next<C>)
        requires
            old(self).phase_view() == Phase::Forwarding,
        ensures
            handled(*old(self), *final(self), c, returned, r),
    {
        if returned {
            self.propagate()
        } else {
            self.stack.push((c, true));
            self.settle()
        }
    }

    /// The context `c` was set up; `returned` says whether it returned at once.
    pub fn set_up(&mut self, c: C, returned: bool) -> (r: Next<C>)
        requires
            old(self).phase_view() == Phase::Propagating || old(self).phase_view() == Phase::Settling,
        ensures
            set_up_outcome(*old(self), *final(self), c, returned, r),
    {
        match self.phase {
            Phase::Propagating => {
                if returned {
                    self.propagate()
                } else {
                    Next::Receive(c)
                }
            },
            _ => {
                if !returned {
                    self.stack.push((c, true));
                }
                self.settle()
            },
        }
    }

    /// The context `c` received the message; `returned` says whether it returned in turn.
    pub fn received(&mut self, c: C, returned: bool) -> (r: Next<C>)
        requires
            old(self).phase_view() == Phase::Propagating,
        ensures
            handled(*old(self), *final(self), c, returned, r),
    {
        if returned {
            self.propagate()
        } else {
            self.stack.push((c, true));
            self.settle()
        }
    }

    fn propagate(&mut self) -> (r: Next<C>)
        ensures
            propagation(
                old(self).entries(),
                old(self).pushed(),
                final(self).entries(),
                final(self).pushed(),
                final(self).phase_view(),
                r,
            ),
    {
        match self.stack.pop() {
            Some(next) => {
                self.phase = Phase::Propagating;
                if next.1 {
                    Next::Receive(next.0)
                } else {
                    Next::SetUp(next.0)
                }
            },
            None => {
                self.phase = Phase::Idle;
                Next::Exhausted
            },
        }
    }

    fn settle(&mut self) -> (r: Next<C>)
        ensures
            settling(
                old(self).entries(),
                old(self).pushed(),
                final(self).entries(),
                final(self).pushed(),
                final(self).phase_view(),
                r,
            ),
    {
        if self.pending.len() == 0 {
            self.phase = Phase::Idle;
            return Next::Done;
        }
        let ghost e = self.stack@;
        let ghost p = self.pending@;
        while self.pending.len() > 0
            invariant
                self.stack@ + self.pending@.map_values(|c: C| (c, false)) == e + p.map_values(
                    |c: C| (c, false),
                ),
            decreases self.pending@.len(),
        {
            let ghost s0 = self.stack@;
            let ghost q0 = self.pending@;
            let c = self.pending.remove(0);
            self.stack.push((c, false));
            proof {
                assert(q0.map_values(|x: C| (x, false)) =~= seq![(c, false)] + self.pending@.map_values(
                    |x: C| (x, false),
                ));
                assert(s0 + q0.map_values(|x: C| (x, false)) =~= self.stack@ + self.pending@.map_values(
                    |x: C| (x, false),
                ));
            }
        }
        assert(self.pending@.map_values(|c: C| (c, false)) =~= Seq::<(C, bool)>::empty());
        assert(self.stack@ =~= e + p.map_values(|c: C| (c, false)));
        assert(self.pending@ =~= Seq::<C>::empty());
        assert(self.stack@.len() > 0);
        self.phase = Phase::Settling;
        match self.stack.pop() {
            Some(top) => Next::SetUp(top.0),
            None => Next::Done,
        }
    }
}

/// What `push_context(c)` leaves: `c` joins the pushed contexts, nothing else changes.
pub open spec fn context_pushed<C>(a: ContextStack<C>, b: ContextStack<C>, c: C) -> bool {
    &&& b.entries() == a.entries()
    &&& b.pushed() == a.pushed().push(c)
    &&& b.phase_view() == a.phase_view()
}

/// What `begin` leaves and hands out (`r`): the active context taken off the stack, or
/// nothing from an empty stack.
pub open spec fn begun<C>(a: ContextStack<C>, b: ContextStack<C>, r: Option<C>) -> bool {
    &&& b.pushed() == a.pushed()
    &&& if a.entries().len() == 0 {
        r is None && b.entries() == a.entries() && b.phase_view() == Phase::Idle
    } else {
        &&& r == Some(a.entries().last().0)
        &&& b.entries() == a.entries().drop_last()
        &&& b.phase_view() == Phase::Forwarding
    }
}

/// What reporting that the context `c` handled the key press or the message (`forwarded`,
/// `received`) leaves and answers (`r`): if it returned, the message travels down; otherwise
/// `c` goes back on the stack, set up, and the pushed contexts settle.
pub open spec fn handled<C>(a: ContextStack<C>, b: ContextStack<C>, c: C, returned: bool, r: Next<C>) -> bool {
    if returned {
        propagation(a.entries(), a.pushed(), b.entries(), b.pushed(), b.phase_view(), r)
    } else {
        settling(a.entries().push((c, true)), a.pushed(), b.entries(), b.pushed(), b.phase_view(), r)
    }
}

/// What reporting that the context `c` was set up leaves and answers (`r`). While a message
/// travels down: if `c` returned at once, the message goes on down; otherwise `c` is to
/// receive it. While pushed contexts settle: `c` stays on the stack unless it returned, and
/// the rest settle.
pub open spec fn set_up_outcome<C>(a: ContextStack<C>, b: ContextStack<C>, c: C, returned: bool, r: Next<C>) -> bool {
    if a.phase_view() == Phase::Propagating {
        if returned {
            propagation(a.entries(), a.pushed(), b.entries(), b.pushed(), b.phase_view(), r)
        } else {
            &&& r == Next::Receive(c)
            &&& b.entries() == a.entries()
            &&& b.pushed() == a.pushed()
            &&& b.phase_view() == Phase::Propagating
        }
    } else {
        settling(
            if returned {
                a.entries()
            } else {
                a.entries().push((c, true))
            },
            a.pushed(),
            b.entries(),
            b.pushed(),
            b.phase_view(),
            r,
        )
    }
}

/// One call made on a context stack while a key press is handled, with what it answered.
pub enum StackEvent<C> {
    /// `begin`, which handed out this context (or none).
    Begin(Option<C>),
    /// `push_context` of this context.
    Push(C),
    /// `forwarded(c, returned)` and its answer.
    Forwarded(C, bool, Next<C>),
    /// `set_up(c, returned)` and its answer.
    SetUp(C, bool, Next<C>),
    /// `received(c, returned)` and its answer.
    Received(C, bool, Next<C>),
}

/// Whether the call `ev` is allowed on `a` (its `requires`) and leaves `a` as `b`, answering
/// what `ev` records (its `ensures`).
pub open spec fn stack_event<C>(a: ContextStack<C>, b: ContextStack<C>, ev: StackEvent<C>) -> bool {
    match ev {
        StackEvent::Begin(r) => a.phase_view() == Phase::Idle && begun(a, b, r),
        StackEvent::Push(c) => context_pushed(a, b, c),
        StackEvent::Forwarded(c, returned, r) => a.phase_view() == Phase::Forwarding && handled(
            a,
            b,
            c,
            returned,
            r,
        ),
        StackEvent::SetUp(c, returned, r) => (a.phase_view() == Phase::Propagating
            || a.phase_view() == Phase::Settling) && set_up_outcome(a, b, c, returned, r),
        StackEvent::Received(c, returned, r) => a.phase_view() == Phase::Propagating && handled(
            a,
            b,
            c,
            returned,
            r,
        ),
    }
}

/// The answer of the call `ev`, if it answers with a next step.
pub open spec fn answer<C>(ev: StackEvent<C>) -> Option<Next<C>> {
    match ev {
        StackEvent::Forwarded(_, _, r) => Some(r),
        StackEvent::SetUp(_, _, r) => Some(r),
        StackEvent::Received(_, _, r) => Some(r),
        _ => None,
    }
}

/// The context the editor holds after the call `ev`, having held `hand` before: the one that
/// `begin` handed out, the one the answer names, or none once the key press is over.
pub open spec fn hand_after<C>(hand: Option<C>, ev: StackEvent<C>) -> Option<C> {
    match ev {
        StackEvent::Begin(r) => r,
        StackEvent::Push(_) => hand,
        _ => match answer(ev)->0 {
            Next::SetUp(c) => Some(c),
            Next::Receive(c) => Some(c),
            _ => None,
        },
    }
}

/// Whether the call `ev` reports on the context the editor holds (`hand`).
pub open spec fn reports_on<C>(hand: Option<C>, ev: StackEvent<C>) -> bool {
    match ev {
        StackEvent::Forwarded(c, _, _) => hand == Some(c),
        StackEvent::SetUp(c, _, _) => hand == Some(c),
        StackEvent::Received(c, _, _) => hand == Some(c),
        _ => true,
    }
}

/// The stack `e` is not empty and has `b`, set up, at its bottom.
pub open spec fn bottom_kept<C>(e: Seq<(C, bool)>, b: C) -> bool {
    e.len() > 0 && e[0] == (b, true)
}

/// The stack `s` with the context `hand` held by the editor keeps `b` at its bottom: in the
/// stack itself, or, while a key press or a message is being handed to it, in the editor's
/// hand with nothing beneath.
pub open spec fn holds_bottom<C>(s: ContextStack<C>, hand: Option<C>, b: C) -> bool {
    match s.phase_view() {
        Phase::Idle => bottom_kept(s.entries(), b) && hand is None,
        Phase::Settling => bottom_kept(s.entries(), b) && hand is Some,
        _ => hand is Some && (bottom_kept(s.entries(), b) || (s.entries().len() == 0 && hand
            == Some(b))),
    }
}

/// One call keeps the bottom context in place, unless it answers that the message went past
/// the bottom; an answer that the key press is handled leaves the stack idle with the bottom
/// in place and nothing pushed.
pub proof fn lemma_event_keeps_bottom<C>(
    a: ContextStack<C>,
    s: ContextStack<C>,
    hand: Option<C>,
    ev: StackEvent<C>,
    b: C,
)
    requires
        holds_bottom(a, hand, b),
        stack_event(a, s, ev),
        reports_on(hand, ev),
        answer(ev) != Some(Next::<C>::Exhausted),
    ensures
        holds_bottom(s, hand_after(hand, ev), b),
        answer(ev) == Some(Next::<C>::Done) ==> s.phase_view() == Phase::Idle
            && s.pushed().len() == 0 && bottom_kept(s.entries(), b),
{
    let e = a.entries();
    match ev {
        StackEvent::Begin(r) => {},
        StackEvent::Push(c) => {},
        StackEvent::Forwarded(c, returned, r) => {
            if !returned {
                lemma_settling_keeps_bottom(e.push((c, true)), a.pushed(), s, r, b);
            }
        },
        StackEvent::Received(c, returned, r) => {
            if !returned {
                lemma_settling_keeps_bottom(e.push((c, true)), a.pushed(), s, r, b);
            }
        },
        StackEvent::SetUp(c, returned, r) => {
            if a.phase_view() == Phase::Settling {
                if returned {
                    lemma_settling_keeps_bottom(e, a.pushed(), s, r, b);
                } else {
                    lemma_settling_keeps_bottom(e.push((c, true)), a.pushed(), s, r, b);
                }
            }
        },
    }
}

proof fn lemma_settling_keeps_bottom<C>(e: Seq<(C, bool)>, p: Seq<C>, s: ContextStack<C>, r: Next<C>, b: C)
    requires
        bottom_kept(e, b),
        settling(e, p, s.entries(), s.pushed(), s.phase_view(), r),
    ensures
        bottom_kept(s.entries(), b),
        r is Done ==> s.phase_view() == Phase::Idle && s.pushed().len() == 0,
        r is SetUp && s.phase_view() == Phase::Settling || r is Done && s.phase_view()
            == Phase::Idle,
{
    if p.len() > 0 {
        let all = e + p.map_values(|c: C| (c, false));
        assert(all[0] == e[0]);
    }
}

/// A handled key press keeps the bottom context: starting idle with `b`, set up, at the bottom
/// of the stack, any run of calls (`ss[i + 1]` is the stack after the call `evs[i]` on
/// `ss[i]`, each reporting on the context the editor was handed, `hands[i]`) in which no
/// message goes past the bottom keeps `b` at the bottom, and whenever a call answers that the
/// key press is handled the stack is idle, not empty, with `b` at its bottom and nothing
/// pushed left over.
pub proof fn lemma_key_press_keeps_bottom<C>(
    b: C,
    ss: Seq<ContextStack<C>>,
    hands: Seq<Option<C>>,
    evs: Seq<StackEvent<C>>,
)
    requires
        ss.len() == evs.len() + 1,
        hands.len() == evs.len() + 1,
        ss[0].phase_view() == Phase::Idle,
        bottom_kept(ss[0].entries(), b),
        hands[0] is None,
        forall|i: int|
            0 <= i < evs.len() ==> stack_event(#[trigger] ss[i], ss[i + 1], evs[i]) && reports_on(
                hands[i],
                evs[i],
            ) && hands[i + 1] == hand_after(hands[i], evs[i]) && answer(evs[i]) != Some(
                Next::<C>::Exhausted,
            ),
    ensures
        forall|k: int| 0 <= k < ss.len() ==> holds_bottom(#[trigger] ss[k], hands[k], b),
        forall|i: int|
            0 <= i < evs.len() && answer(#[trigger] evs[i]) == Some(Next::<C>::Done) ==> ss[i
                + 1].phase_view() == Phase::Idle && ss[i + 1].pushed().len() == 0 && bottom_kept(
                ss[i + 1].entries(),
                b,
            ),
    decreases evs.len(),
{
    if evs.len() > 0 {
        let n = evs.len() - 1;
        let s0 = ss.drop_last();
        let h0 = hands.drop_last();
        let v0 = evs.drop_last();
        assert forall|i: int| 0 <= i < v0.len() implies stack_event(#[trigger] s0[i], s0[i + 1], v0[i])
            && reports_on(h0[i], v0[i]) && h0[i + 1] == hand_after(h0[i], v0[i]) && answer(v0[i])
            != Some(Next::<C>::Exhausted) by {
            assert(s0[i] == ss[i] && s0[i + 1] == ss[i + 1] && h0[i] == hands[i] && h0[i + 1]
                == hands[i + 1] && v0[i] == evs[i]);
            assert(stack_event(ss[i], ss[i + 1], evs[i]));
        }
        lemma_key_press_keeps_bottom(b, s0, h0, v0);
        assert(s0[n] == ss[n] && h0[n] == hands[n]);
        assert(holds_bottom(ss[n], hands[n], b));
        assert(stack_event(ss[n], ss[n + 1], evs[n]));
        lemma_event_keeps_bottom(ss[n], ss[n + 1], hands[n], evs[n], b);
        assert forall|k: int| 0 <= k < ss.len() implies holds_bottom(#[trigger] ss[k], hands[k], b) by {
            if k < s0.len() {
                assert(s0[k] == ss[k] && h0[k] == hands[k]);
            }
        }
        assert forall|i: int|
            0 <= i < evs.len() && answer(#[trigger] evs[i]) == Some(Next::<C>::Done) implies ss[i
                + 1].phase_view() == Phase::Idle && ss[i + 1].pushed().len() == 0 && bottom_kept(
                ss[i + 1].entries(),
                b,
            ) by {
            if i < n {
                assert(s0[i + 1] == ss[i + 1] && v0[i] == evs[i]);
            }
        }
    }
}

} // verus!
