use vstd::prelude::*;
use crate::symbol::Frame;

verus! {

/// What the unwinding engine reported when asked for the next frame.
#[derive(Clone, Copy, Debug, PartialEq, Eq)]
pub enum UnwindStep {
    /// The next return address along the call chain.
    Frame(usize),
    /// No further frames.
    End,
    /// The engine failed; the walk ends here.
    Failed,
}

/// The frame addresses handed out for the engine reports `steps`, when the
/// per-frame callback answers `answers` in turn: every reported address is
/// handed out until the engine ends or fails, or the callback answers `false`
/// (or gives no answer).
pub open spec fn walk(steps: Seq<UnwindStep>, answers: Seq<bool>) -> Seq<usize>
    decreases steps.len(),
{
    if steps.len() == 0 {
        Seq::empty()
    } else {
        match steps[0] {
            UnwindStep::Frame(a) => if answers.len() > 0 && answers[0] {
                seq![a] + walk(steps.drop_first(), answers.drop_first())
            } else {
                seq![a]
            },
            _ => Seq::empty(),
        }
    }
}

/// Every step of `steps` reports a frame, and every answer says to go on.
pub open spec fn all_continue(steps: Seq<UnwindStep>, answers: Seq<bool>) -> bool {
    &&& steps.len() == answers.len()
    &&& forall|i: int| 0 <= i < steps.len() ==> (#[trigger] steps[i]) is Frame
    &&& forall|i: int| 0 <= i < answers.len() ==> #[trigger] answers[i]
}

/// The addresses of a run of frame reports.
pub open spec fn addrs(steps: Seq<UnwindStep>) -> Seq<usize> {
    steps.map_values(|s: UnwindStep| if let UnwindStep::Frame(a) = s { a } else { 0 })
}

/// A run in which the callback always went on hands out every address and
/// then whatever the rest of the run hands out.
pub proof fn lemma_walk_continued(
    steps: Seq<UnwindStep>,
    answers: Seq<bool>,
    more_steps: Seq<UnwindStep>,
    more_answers: Seq<bool>,
)
    requires
        all_continue(steps, answers),
    ensures
        walk(steps + more_steps, answers + more_answers) == addrs(steps) + walk(
            more_steps,
            more_answers,
        ),
    decreases steps.len(),
{
    if steps.len() == 0 {
        assert(steps + more_steps == more_steps);
        assert(answers + more_answers == more_answers);
        assert(addrs(steps) + walk(more_steps, more_answers) == walk(more_steps, more_answers));
    } else {
        let s = steps + more_steps;
        let a = answers + more_answers;
        assert(s[0] == steps[0]);
        assert(a[0] == answers[0]);
        assert(s.drop_first() == steps.drop_first() + more_steps);
        assert(a.drop_first() == answers.drop_first() + more_answers);
        assert(all_continue(steps.drop_first(), answers.drop_first())) by {
            assert forall|i: int| 0 <= i < steps.len() - 1 implies (
            #[trigger] steps.drop_first()[i]) is Frame by {
                assert(steps[i + 1] is Frame);
            }
            assert forall|i: int| 0 <= i < answers.len() - 1 implies #[trigger] answers.drop_first()[i] by {
                assert(answers[i + 1]);
            }
        }
        lemma_walk_continued(steps.drop_first(), answers.drop_first(), more_steps, more_answers);
        assert(steps[0] is Frame);
        assert(addrs(steps) == seq![addrs(steps)[0]] + addrs(steps.drop_first()));
    }
}

/// The walk hands out at most one address per engine report.
pub proof fn lemma_walk_len(steps: Seq<UnwindStep>, answers: Seq<bool>)
    ensures
        walk(steps, answers).len() <= steps.len(),
    decreases steps.len(),
{
    if steps.len() > 0 {
        lemma_walk_len(steps.drop_first(), answers.drop_first());
    }
}

/// The walk ends at report `k` when the engine ended or failed there, or when
/// the callback answered `false` to the frame reported there.
pub open spec fn ends_at(steps: Seq<UnwindStep>, answers: Seq<bool>, k: int) -> bool {
    &&& 0 <= k < steps.len()
    &&& match steps[k] {
        UnwindStep::Frame(_) => k < answers.len() && !answers[k],
        _ => true,
    }
}

/// The last engine report is the one at which the walk ended.
pub open spec fn walk_ended(steps: Seq<UnwindStep>, answers: Seq<bool>) -> bool {
    steps.len() > 0 && ends_at(steps, answers, steps.len() - 1)
}

/// Nothing that the engine reports after the report at which the walk ends
/// changes what is handed out.
pub proof fn lemma_walk_cut(steps: Seq<UnwindStep>, answers: Seq<bool>, k: int)
    requires
        ends_at(steps, answers, k),
    ensures
        walk(steps, answers) == walk(steps.take(k + 1), answers),
    decreases k,
{
    let s = steps.take(k + 1);
    assert(s[0] == steps[0]);
    if k > 0 {
        if steps[0] is Frame && answers.len() > 0 && answers[0] {
            assert(ends_at(steps.drop_first(), answers.drop_first(), k - 1));
            lemma_walk_cut(steps.drop_first(), answers.drop_first(), k - 1);
            assert(s.drop_first() =~= steps.drop_first().take(k));
        }
    }
}

/// Once the callback has answered `false`, no further frame is handed out:
/// the walk holds at most the frames up to and including the one refused,
/// whatever the engine would have reported after it.
pub proof fn lemma_no_frame_after_stop(steps: Seq<UnwindStep>, answers: Seq<bool>, k: int)
    requires
        0 <= k < steps.len(),
        k < answers.len(),
        steps[k] is Frame,
        !answers[k],
    ensures
        walk(steps, answers) == walk(steps.take(k + 1), answers),
        walk(steps, answers).len() <= k + 1,
{
    lemma_walk_cut(steps, answers, k);
    lemma_walk_len(steps.take(k + 1), answers);
}

/// When the engine fails at report `k`, the walk ends there: only frames
/// reported before the failure are handed out.
pub proof fn lemma_failure_ends_walk(steps: Seq<UnwindStep>, answers: Seq<bool>, k: int)
    requires
        0 <= k < steps.len(),
        steps[k] == UnwindStep::Failed,
    ensures
        walk(steps, answers) == walk(steps.take(k), answers),
        walk(steps, answers).len() <= k,
    decreases k,
{
    if k > 0 {
        assert(steps.take(k)[0] == steps[0]);
        if steps[0] is Frame && answers.len() > 0 && answers[0] {
            lemma_failure_ends_walk(steps.drop_first(), answers.drop_first(), k - 1);
            assert(steps.take(k).drop_first() =~= steps.drop_first().take(k - 1));
        }
    } else {
        assert(steps.take(k) =~= Seq::<UnwindStep>::empty());
    }
    lemma_walk_len(steps.take(k), answers);
}

/// Each of `steps` is a report that the engine `next` can give when asked.
pub open spec fn reported_by<N: FnMut() -> UnwindStep>(next: N, steps: Seq<UnwindStep>) -> bool {
    forall|i: int| 0 <= i < steps.len() ==> call_ensures(next, (), #[trigger] steps[i])
}

/// The callback `cb`, handed a frame at each of `frames` in turn, answered
/// `answers`: one answer per frame.
pub open spec fn answered_by<F: FnMut(&Frame) -> bool>(
    cb: F,
    frames: Seq<usize>,
    answers: Seq<bool>,
) -> bool {
    &&& frames.len() == answers.len()
    &&& forall|i: int| 0 <= i < answers.len() ==> #[trigger] answer_to(cb, frames[i], answers[i])
}

/// `cb`, handed a frame at `addr`, can answer `answer`.
pub open spec fn answer_to<F: FnMut(&Frame) -> bool>(cb: F, addr: usize, answer: bool) -> bool {
    exists|fr: &Frame| fr.addr_spec() == addr && call_ensures(cb, (fr,), answer)
}

/// Per-walk state. A trace walks once: after its walk it hands out nothing.
/// It records, as ghost state, what the engine reported, what the callback
/// answered, and which addresses were handed to the callback.
pub struct Trace {
    finished: bool,
    steps: Ghost<Seq<UnwindStep>>,
    answers: Ghost<Seq<bool>>,
    frames: Ghost<Seq<usize>>,
}

impl Default for Trace {
    fn default() -> (r: Trace)
        ensures
            !r.is_finished(),
            r.well_formed(),
            r.frames() == Seq::<usize>::empty(),
    {
        Trace::new()
    }
}

impl Trace {
    pub closed spec fn is_finished(&self) -> bool {
        self.finished
    }

    /// What the engine reported, in order.
    pub closed spec fn steps(&self) -> Seq<UnwindStep> {
        self.steps@
    }

    /// What the per-frame callback answered, in order.
    pub closed spec fn answers(&self) -> Seq<bool> {
        self.answers@
    }

    /// The addresses handed to the per-frame callback, in order.
    pub closed spec fn frames(&self) -> Seq<usize> {
        self.frames@
    }

    pub open spec fn well_formed(&self) -> bool {
        self.frames() == walk(self.steps(), self.answers())
    }

    pub fn new() -> (r: Trace)
        ensures
            !r.is_finished(),
            r.steps() == Seq::<UnwindStep>::empty(),
            r.answers() == Seq::<bool>::empty(),
            r.frames() == Seq::<usize>::empty(),
            r.well_formed(),
    {
        Trace {
            finished: false,
            steps: Ghost(Seq::empty()),
            answers: Ghost(Seq::empty()),
            frames: Ghost(Seq::empty()),
        }
    }

    /// Walks the call chain: asks `next` for each frame the engine finds and
    /// hands it to `cb`, until the engine ends or fails or `cb` returns
    /// `false`; a walk asks for at most `usize::MAX` frames. A trace that has
    /// already walked hands out nothing.
    pub fn trace<N, F>(&mut self, mut next: N, mut cb: F)
        where N: FnMut() -> UnwindStep, F: FnMut(&Frame) -> bool,
        requires
            forall|n: N| call_requires(n, ()),
            forall|f: F, fr: &Frame| call_requires(f, (fr,)),
            old(self).well_formed(),
        ensures
            final(self).is_finished(),
            final(self).well_formed(),
            old(self).is_finished() ==> *final(self) == *old(self),
            !old(self).is_finished() ==> walk_ended(final(self).steps(), final(self).answers())
                || final(self).steps().len() == usize::MAX,
            !old(self).is_finished() ==> reported_by(next, final(self).steps()),
            !old(self).is_finished() ==> answered_by(cb, final(self).frames(), final(self).answers()),
    {
        if self.finished {
            return;
        }
        self.steps = Ghost(Seq::empty());
        self.answers = Ghost(Seq::empty());
        self.frames = Ghost(Seq::empty());
        let mut depth: usize = 0;
        let ghost next0 = next;
        let ghost cb0 = cb;
        assert(addrs(self.steps@) =~= Seq::<usize>::empty());
        while !self.finished
            invariant
                forall|n: N| call_requires(n, ()),
                forall|f: F, fr: &Frame| call_requires(f, (fr,)),
                self.well_formed(),
                !self.finished ==> all_continue(self.steps@, self.answers@),
                !self.finished ==> self.frames@ == addrs(self.steps@),
                !self.finished ==> depth == self.steps@.len(),
                self.finished ==> walk_ended(self.steps@, self.answers@) || self.steps@.len()
                    == usize::MAX,
                next == next0,
                cb == cb0,
                reported_by(next0, self.steps@),
                answered_by(cb0, self.frames@, self.answers@),
            decreases usize::MAX - depth + if self.finished { 0int } else { 1int },
        {
            if depth == usize::MAX {
                self.finished = true;
            } else {
                let step = next();
                let ghost s0 = self.steps@;
                let ghost a0 = self.answers@;
                match step {
                    UnwindStep::Frame(a) => {
                        let fr = Frame::new(a);
                        let go_on = cb(&fr);
                        let ghost f0 = self.frames@;
                        proof {
                            lemma_walk_continued(s0, a0, seq![step], seq![go_on]);
                            self.steps@ = s0.push(step);
                            self.answers@ = a0.push(go_on);
                            self.frames@ = self.frames@.push(a);
                            assert(s0 + seq![step] == s0.push(step));
                            assert(a0 + seq![go_on] == a0.push(go_on));
                            assert(walk(seq![step], seq![go_on]) == seq![a]) by {
                                assert(seq![step][0] == step);
                                assert(seq![go_on][0] == go_on);
                                assert(seq![step].drop_first() =~= Seq::<UnwindStep>::empty());
                                assert(walk(Seq::<UnwindStep>::empty(), seq![go_on].drop_first())
                                    == Seq::<usize>::empty());
                                assert(seq![a] + Seq::<usize>::empty() =~= seq![a]);
                            }
                            assert(addrs(self.steps@) =~= addrs(s0).push(a));
                            assert(addrs(s0) + seq![a] =~= addrs(s0).push(a));
                            assert(self.frames@ == walk(self.steps@, self.answers@));
                            assert(answered_by(cb0, f0, a0));
                            assert(self.frames@.len() == self.answers@.len());
                            assert(answer_to(cb0, a, go_on)) by {
                                assert((&fr).addr_spec() == a);
                            }
                            assert forall|i: int| 0 <= i < self.answers@.len() implies #[trigger] answer_to(
                                cb0,
                                self.frames@[i],
                                self.answers@[i],
                            ) by {
                                if i < a0.len() {
                                    assert(self.answers@[i] == a0[i]);
                                    assert(self.frames@[i] == f0[i]);
                                    assert(answer_to(cb0, f0[i], a0[i]));
                                }
                            }
                            assert(answered_by(cb0, self.frames@, self.answers@));
                            assert forall|i: int| 0 <= i < self.steps@.len() implies call_ensures(
                                next0,
                                (),
                                #[trigger] self.steps@[i],
                            ) by {
                                if i < s0.len() {
                                    assert(self.steps@[i] == s0[i]);
                                }
                            }
                            if go_on {
                                assert forall|i: int| 0 <= i < self.steps@.len() implies (
                                #[trigger] self.steps@[i]) is Frame by {
                                    if i < s0.len() {
                                        assert(self.steps@[i] == s0[i]);
                                    }
                                }
                                assert forall|i: int|
                                    0 <= i < self.answers@.len() implies #[trigger] self.answers@[i] by {
                                    if i < a0.len() {
                                        assert(self.answers@[i] == a0[i]);
                                    }
                                }
                            }
                        }
                        depth = depth + 1;
                        if !go_on {
                            self.finished = true;
                        }
                    },
                    _ => {
                        proof {
                            lemma_walk_continued(s0, a0, seq![step], Seq::empty());
                            self.steps@ = s0.push(step);
                            assert(s0 + seq![step] == s0.push(step));
                            assert(a0 + Seq::<bool>::empty() == a0);
                            assert(addrs(s0) + Seq::<usize>::empty() =~= addrs(s0));
                            assert(seq![step][0] == step);
                            assert(walk(seq![step], Seq::<bool>::empty()) == Seq::<usize>::empty());
                            lemma_walk_continued(s0, a0, Seq::empty(), Seq::empty());
                            assert(s0 + Seq::<UnwindStep>::empty() =~= s0);
                            assert(a0 + Seq::<bool>::empty() =~= a0);
                        }
                        self.finished = true;
                    },
                }
            }
        }
    }
}

} // verus!
