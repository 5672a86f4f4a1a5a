//! Objects that LLVM owns or hands out, by their addresses.
use vstd::prelude::*;

verus! {

/// The address of an LLVM object; zero where there is none.
pub type Address = usize;

/// Lends the raw form of an object.
pub trait AsRaw<T> {
    /// The raw form.
    spec fn raw(&self) -> T;

    /// The raw form.
    fn as_raw(&self) -> (res: T)
        ensures
            res == self.raw(),
    ;
}

/// Gives the raw form of an object away.
pub trait AsRawMut<T> {
    /// `before` has become `after` when `res` was given away.
    spec fn given_away(before: &Self, after: &Self, res: T) -> bool;

    /// The raw form, which from now on is the caller's.
    fn as_raw_mut(&mut self) -> (res: T)
        ensures
            Self::given_away(old(self), final(self), res),
    ;
}

/// What a call of [`init`] answers, and what `done` is after it.
pub open spec fn init_step(done: bool) -> (bool, bool) {
    (!done, true)
}

/// Whether LLVM's targets are still to be initialised. The answer is yes once:
/// `done` says whether it has been given.
pub fn init(done: &mut bool) -> (res: bool)
    ensures
        (res, *final(done)) == init_step(*old(done)),
{
    let before = *done;
    *done = true;
    !before
}

/// The answers of `n` calls of [`init`], one after the other on one flag.
pub open spec fn init_answers(done: bool, n: nat) -> Seq<bool>
    decreases n,
{
    if n == 0 {
        Seq::empty()
    } else {
        let (answer, after) = init_step(done);
        seq![answer] + init_answers(after, (n - 1) as nat)
    }
}

/// However many calls of [`init`] are made on one flag, in whatever order they
/// come, the targets are initialised by the first and by no other.
pub proof fn law_initialised_once(n: nat)
    ensures
        init_answers(false, n).len() == n,
        forall|k: int| 0 <= k < n ==> #[trigger] init_answers(false, n)[k] == (k == 0),
{
    if n > 0 {
        lemma_never_again((n - 1) as nat);
    }
}

proof fn lemma_never_again(n: nat)
    ensures
        init_answers(true, n).len() == n,
        forall|k: int| 0 <= k < n ==> !#[trigger] init_answers(true, n)[k],
    decreases n,
{
    if n > 0 {
        lemma_never_again((n - 1) as nat);
    }
}

/// A step of calls that may run side by side. Each call first asks [`init`], in
/// one step that no other call can come into; a call that was answered yes then
/// initialises the targets, and all others are done.
pub enum InitEvent {
    /// A call asks.
    Ask,
    /// A call that was answered yes initialises the targets.
    Initialise,
}

/// How far the calls have come.
#[verifier::ext_equal]
pub struct InitProgress {
    /// The flag.
    pub done: bool,
    /// How many calls have asked.
    pub asked: nat,
    /// How many calls were answered yes and have not yet initialised the
    /// targets.
    pub pending: nat,
    /// How often the targets have been initialised.
    pub runs: nat,
}

/// Where the calls stand after some steps; nothing if a call initialised the
/// targets that was not to.
pub open spec fn init_progress(events: Seq<InitEvent>) -> Option<InitProgress>
    decreases events.len(),
{
    if events.len() == 0 {
        Some(InitProgress { done: false, asked: 0, pending: 0, runs: 0 })
    } else {
        match (init_progress(events.drop_last()), events.last()) {
            (Some(at), InitEvent::Ask) => {
                let (answer, done) = init_step(at.done);
                Some(
                    InitProgress {
                        done,
                        asked: at.asked + 1,
                        pending: if answer {
                            at.pending + 1
                        } else {
                            at.pending
                        },
                        ..at
                    },
                )
            },
            (Some(at), InitEvent::Initialise) => if at.pending > 0 {
                Some(
                    InitProgress { pending: (at.pending - 1) as nat, runs: at.runs + 1, ..at },
                )
            } else {
                None
            },
            (None, _) => None,
        }
    }
}

/// However the steps of any number of calls are interleaved, the targets are
/// initialised at most once; and once all calls have returned, of which there
/// was at least one, exactly once.
pub proof fn law_initialised_once_side_by_side(events: Seq<InitEvent>)
    requires
        init_progress(events) is Some,
    ensures
        ({
            let at = init_progress(events)->0;
            &&& at.runs + at.pending == (if at.asked > 0 {
                1nat
            } else {
                0nat
            })
            &&& at.done == (at.asked > 0)
            &&& at.asked > 0 && at.pending == 0 ==> at.runs == 1
        }),
    decreases events.len(),
{
    if events.len() > 0 {
        law_initialised_once_side_by_side(events.drop_last());
    }
}

} // verus!
