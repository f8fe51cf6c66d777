//! Depth-first traversal: of a thing with the things below it, and of a list
//! of things, such as the roots of a forest.
//!
//! A walk visits each thing before the things below it, and the things of a
//! list first to last. The visitor is told, with each thing, the thing that it
//! stands below and how deep it stands. A controlled walk does what the
//! visitor answers on each visit.

use crate::thing::Thing;
use vstd::prelude::*;

verus! {

/// One call of a visitor: the thing visited, the thing it stands below, and
/// how deep it stands below the things where the walk began.
pub struct Visit {
    pub thing: Thing,
    pub parent: Option<Thing>,
    pub depth: nat,
}

impl Visit {
    /// What the visitor is handed on this visit.
    pub open spec fn args<'a>(self) -> (&'a Thing, Option<&'a Thing>, usize) {
        (
            &self.thing,
            match self.parent {
                Some(parent) => Some(&parent),
                None => None,
            },
            self.depth as usize,
        )
    }
}

/// The visits of the walks that start at the first `n` of `things`, one walk
/// behind the other. Each of these things is visited below `parent`, at
/// `depth`.
pub open spec fn walk_all(things: Seq<Thing>, n: nat, parent: Option<Thing>, depth: nat) -> Seq<
    Visit,
>
    decreases things, n,
{
    if n == 0 || n > things.len() {
        Seq::empty()
    } else {
        walk_all(things, (n - 1) as nat, parent, depth) + things[n - 1].walk(parent, depth)
    }
}

impl Thing {
    /// The visits of the walk that starts at this thing, in order: the thing
    /// itself, then the things below it, each with all that stands below it,
    /// one level deeper.
    pub open spec fn walk(&self, parent: Option<Thing>, depth: nat) -> Seq<Visit>
        decreases self, 0nat,
    {
        seq![Visit { thing: *self, parent, depth }] + walk_all(
            self.children(),
            self.children().len(),
            Some(*self),
            depth + 1,
        )
    }
}

/// The visits of the walk through a forest with these roots.
pub open spec fn forest_walk(roots: Seq<Thing>) -> Seq<Visit> {
    walk_all(roots, roots.len(), None, 0)
}

/// The thing that a visitor is told stands above, given the things on the way
/// down from where the walk began: the last of them, if there is one.
pub open spec fn parent_of(ancestors: Seq<&Thing>) -> Option<Thing> {
    if ancestors.len() == 0 {
        None
    } else {
        Some(*ancestors.last())
    }
}

/// The visits under the first `i` things are the first of the visits under
/// the first `n`.
pub proof fn lemma_walk_all_prefix(
    things: Seq<Thing>,
    i: nat,
    n: nat,
    parent: Option<Thing>,
    depth: nat,
)
    requires
        i <= n <= things.len(),
    ensures
        walk_all(things, i, parent, depth).len() <= walk_all(things, n, parent, depth).len(),
        forall|k: int|
            0 <= k < walk_all(things, i, parent, depth).len() ==> walk_all(
                things,
                n,
                parent,
                depth,
            )[k] == walk_all(things, i, parent, depth)[k],
    decreases n,
{
    if i < n {
        lemma_walk_all_prefix(things, i, (n - 1) as nat, parent, depth);
    }
}

/// A walk starts with the thing where it starts, and visits nothing less deep.
pub proof fn lemma_walk_depth(thing: Thing, parent: Option<Thing>, depth: nat)
    ensures
        thing.walk(parent, depth).len() >= 1,
        thing.walk(parent, depth)[0] == (Visit { thing, parent, depth }),
        forall|k: int|
            0 <= k < thing.walk(parent, depth).len() ==> (#[trigger] thing.walk(
                parent,
                depth,
            )[k]).depth >= depth,
    decreases thing, 0nat,
{
    lemma_walk_all_depth(thing.children(), thing.children().len(), Some(thing), depth + 1);
}

/// The same, of the walks that start at the first `n` of `things`.
pub proof fn lemma_walk_all_depth(things: Seq<Thing>, n: nat, parent: Option<Thing>, depth: nat)
    ensures
        forall|k: int|
            0 <= k < walk_all(things, n, parent, depth).len() ==> (#[trigger] walk_all(
                things,
                n,
                parent,
                depth,
            )[k]).depth >= depth,
    decreases things, n,
{
    if n == 0 || n > things.len() {
    } else {
        lemma_walk_all_depth(things, (n - 1) as nat, parent, depth);
        lemma_walk_depth(things[n - 1], parent, depth);
    }
}

fn foreach_helper<'a, F: FnMut(&Thing, Option<&Thing>, usize)>(
    thing: &'a Thing,
    ancestors: &mut Vec<&'a Thing>,
    f: &mut F,
)
    requires
        forall|k: int|
            0 <= k < thing.walk(parent_of(old(ancestors)@), old(ancestors)@.len()).len()
                ==> call_requires(
                *old(f),
                (#[trigger] thing.walk(parent_of(old(ancestors)@), old(ancestors)@.len())[k]).args(),
            ),
    ensures
        *final(f) == *old(f),
        final(ancestors)@ == old(ancestors)@,
        forall|k: int|
            0 <= k < thing.walk(parent_of(old(ancestors)@), old(ancestors)@.len()).len()
                ==> call_ensures(
                *old(f),
                (#[trigger] thing.walk(parent_of(old(ancestors)@), old(ancestors)@.len())[k]).args(),
                (),
            ),
    decreases thing,
{
    let ghost parent = parent_of(ancestors@);
    let ghost depth = ancestors@.len();
    let ghost visits = thing.walk(parent, depth);
    let ghost below = walk_all(
        thing.children(),
        thing.children().len(),
        Some(*thing),
        depth + 1,
    );
    let count = ancestors.len();
    let above: Option<&Thing> = if count == 0 {
        None
    } else {
        Some(ancestors[count - 1])
    };
    assert(visits[0].args() == (thing, above, count));
    f(thing, above, count);
    ancestors.push(thing);
    proof {
        assert(parent_of(ancestors@) == Some(*thing));
        assert forall|k: int| 0 <= k < below.len() implies call_requires(
            *f,
            (#[trigger] below[k]).args(),
        ) by {
            assert(below[k] == visits[k + 1]);
        }
    }
    foreach_all(&thing.things.values, ancestors, f);
    ancestors.pop();
    proof {
        assert(ancestors@ =~= old(ancestors)@);
        assert forall|k: int| 0 <= k < visits.len() implies call_ensures(
            *old(f),
            (#[trigger] visits[k]).args(),
            (),
        ) by {
            if k > 0 {
                assert(visits[k] == below[k - 1]);
            }
        }
    }
}

fn foreach_all<'a, F: FnMut(&Thing, Option<&Thing>, usize)>(
    things: &'a Vec<Thing>,
    ancestors: &mut Vec<&'a Thing>,
    f: &mut F,
)
    requires
        forall|k: int|
            0 <= k < walk_all(
                things@,
                things@.len(),
                parent_of(old(ancestors)@),
                old(ancestors)@.len(),
            ).len() ==> call_requires(
                *old(f),
                (#[trigger] walk_all(
                    things@,
                    things@.len(),
                    parent_of(old(ancestors)@),
                    old(ancestors)@.len(),
                )[k]).args(),
            ),
    ensures
        *final(f) == *old(f),
        final(ancestors)@ == old(ancestors)@,
        forall|k: int|
            0 <= k < walk_all(
                things@,
                things@.len(),
                parent_of(old(ancestors)@),
                old(ancestors)@.len(),
            ).len() ==> call_ensures(
                *old(f),
                (#[trigger] walk_all(
                    things@,
                    things@.len(),
                    parent_of(old(ancestors)@),
                    old(ancestors)@.len(),
                )[k]).args(),
                (),
            ),
    decreases things,
{
    let ghost parent = parent_of(ancestors@);
    let ghost depth = ancestors@.len();
    let n = things.len();
    let ghost all = walk_all(things@, n as nat, parent, depth);
    let mut i: usize = 0;
    while i < n
        invariant
            0 <= i <= n,
            n == things@.len(),
            *f == *old(f),
            ancestors@ == old(ancestors)@,
            parent == parent_of(ancestors@),
            depth == ancestors@.len(),
            all == walk_all(things@, n as nat, parent, depth),
            forall|k: int| 0 <= k < all.len() ==> call_requires(*f, (#[trigger] all[k]).args()),
            forall|k: int|
                0 <= k < walk_all(things@, i as nat, parent, depth).len() ==> call_ensures(
                    *f,
                    (#[trigger] walk_all(things@, i as nat, parent, depth)[k]).args(),
                    (),
                ),
        decreases n - i,
    {
        let ghost done = walk_all(things@, i as nat, parent, depth);
        let ghost next = walk_all(things@, (i + 1) as nat, parent, depth);
        let thing = &things[i];
        let ghost below = thing.walk(parent, depth);
        proof {
            assert(next == done + below);
            lemma_walk_all_prefix(things@, (i + 1) as nat, n as nat, parent, depth);
            assert forall|k: int| 0 <= k < below.len() implies call_requires(
                *f,
                (#[trigger] below[k]).args(),
            ) by {
                assert(below[k] == next[done.len() + k]);
                assert(next[done.len() + k] == all[done.len() + k]);
            }
        }
        foreach_helper(thing, ancestors, f);
        proof {
            assert forall|k: int| 0 <= k < next.len() implies call_ensures(
                *f,
                (#[trigger] next[k]).args(),
                (),
            ) by {
                if k >= done.len() {
                    assert(next[k] == below[k - done.len()]);
                }
            }
        }
        i += 1;
    }
}

impl Thing {
    /// Calls `f` on this thing and on every thing below it, each one before
    /// the things below it, with the thing it stands below and its depth; the
    /// thing where the walk begins has no parent and depth 0.
    pub fn foreach<F: FnMut(&Thing, Option<&Thing>, usize)>(&self, f: F)
        requires
            forall|k: int|
                0 <= k < self.walk(None, 0).len() ==> call_requires(
                    f,
                    (#[trigger] self.walk(None, 0)[k]).args(),
                ),
        ensures
            forall|k: int|
                0 <= k < self.walk(None, 0).len() ==> call_ensures(
                    f,
                    (#[trigger] self.walk(None, 0)[k]).args(),
                    (),
                ),
    {
        let mut f = f;
        let mut ancestors: Vec<&Thing> = Vec::new();
        foreach_helper(self, &mut ancestors, &mut f);
    }
}

/// Calls `f` on every thing of a forest: on each of the roots `things`, first
/// to last, and on every thing below it, as [`Thing::foreach`] does.
pub fn foreach_thing<F: FnMut(&Thing, Option<&Thing>, usize)>(things: &Vec<Thing>, f: F)
    requires
        forall|k: int|
            0 <= k < forest_walk(things@).len() ==> call_requires(
                f,
                (#[trigger] forest_walk(things@)[k]).args(),
            ),
    ensures
        forall|k: int|
            0 <= k < forest_walk(things@).len() ==> call_ensures(
                f,
                (#[trigger] forest_walk(things@)[k]).args(),
                (),
            ),
{
    let mut f = f;
    let mut ancestors: Vec<&Thing> = Vec::new();
    assert(forest_walk(things@) == walk_all(
        things@,
        things@.len(),
        parent_of(ancestors@),
        ancestors@.len(),
    ));
    foreach_all(things, &mut ancestors, &mut f);
}

/// What a visitor answers on a visit of a controlled walk.
#[derive(Clone, Copy, PartialEq, Eq, Debug)]
pub enum ForeachCtrl {
    /// End the whole walk here.
    Break,
    /// Leave out what stands below this thing, and go on.
    BreakSubtree,
    /// Go on with what stands below this thing.
    Continue,
}

/// A controlled walk: its visits in order, and whether a visitor ended it.
pub struct CtrlWalk {
    pub visits: Seq<Visit>,
    pub stopped: bool,
}

/// The controlled walk through the first `n` of `things`, where the visitor
/// gives `answers`, one on each visit in order. The walks that start at these
/// things follow one another until one of them is ended, which ends the whole.
pub open spec fn walk_ctrl_all(
    things: Seq<Thing>,
    n: nat,
    parent: Option<Thing>,
    depth: nat,
    answers: Seq<ForeachCtrl>,
) -> CtrlWalk
    decreases things, n,
{
    if n == 0 || n > things.len() {
        CtrlWalk { visits: Seq::empty(), stopped: false }
    } else {
        let before = walk_ctrl_all(things, (n - 1) as nat, parent, depth, answers);
        if before.stopped {
            before
        } else {
            let last = things[n - 1].walk_ctrl(
                parent,
                depth,
                answers.skip(before.visits.len() as int),
            );
            CtrlWalk { visits: before.visits + last.visits, stopped: last.stopped }
        }
    }
}

impl Thing {
    /// The controlled walk that starts at this thing, where the visitor gives
    /// `answers`, one on each visit in order. The thing itself is visited
    /// first. On `Break` the walk ends; on `BreakSubtree` it leaves out what
    /// stands below; on `Continue` it goes through the things below in order,
    /// until one of their walks is ended. Without an answer left the walk ends.
    pub open spec fn walk_ctrl(
        &self,
        parent: Option<Thing>,
        depth: nat,
        answers: Seq<ForeachCtrl>,
    ) -> CtrlWalk
        decreases self, 0nat,
    {
        let here = seq![Visit { thing: *self, parent, depth }];
        if answers.len() == 0 {
            CtrlWalk { visits: here, stopped: true }
        } else {
            match answers[0] {
                ForeachCtrl::Break => CtrlWalk { visits: here, stopped: true },
                ForeachCtrl::BreakSubtree => CtrlWalk { visits: here, stopped: false },
                ForeachCtrl::Continue => {
                    let below = walk_ctrl_all(
                        self.children(),
                        self.children().len(),
                        Some(*self),
                        depth + 1,
                        answers.skip(1),
                    );
                    CtrlWalk { visits: here + below.visits, stopped: below.stopped }
                },
            }
        }
    }

    /// Whether `answers` are what `f` may answer on the visits that they lead
    /// to: one answer for each visit, each allowed by `f` on that visit.
    pub open spec fn walked_by<F: FnMut(&Thing, Option<&Thing>, usize) -> ForeachCtrl>(
        &self,
        f: F,
        answers: Seq<ForeachCtrl>,
    ) -> bool {
        &&& answers.len() == self.walk_ctrl(None, 0, answers).visits.len()
        &&& forall|k: int|
            0 <= k < answers.len() ==> call_ensures(
                f,
                (#[trigger] self.walk_ctrl(None, 0, answers).visits[k]).args(),
                answers[k],
            )
    }
}

/// The controlled walk through a forest with these roots.
pub open spec fn forest_walk_ctrl(roots: Seq<Thing>, answers: Seq<ForeachCtrl>) -> CtrlWalk {
    walk_ctrl_all(roots, roots.len(), None, 0, answers)
}

/// Whether `answers` are what `f` may answer on the visits that they lead to
/// in a forest: one answer for each visit, each allowed by `f` on that visit.
pub open spec fn forest_walked_by<F: FnMut(&Thing, Option<&Thing>, usize) -> ForeachCtrl>(
    roots: Seq<Thing>,
    f: F,
    answers: Seq<ForeachCtrl>,
) -> bool {
    &&& answers.len() == forest_walk_ctrl(roots, answers).visits.len()
    &&& forall|k: int|
        0 <= k < answers.len() ==> call_ensures(
            f,
            (#[trigger] forest_walk_ctrl(roots, answers).visits[k]).args(),
            answers[k],
        )
}

/// A controlled walk depends on the answers given on its visits and on no
/// others: answers that agree on as many places as the walk has visits lead to
/// the same walk.
pub proof fn lemma_walk_ctrl_answers(
    thing: Thing,
    parent: Option<Thing>,
    depth: nat,
    a: Seq<ForeachCtrl>,
    b: Seq<ForeachCtrl>,
)
    requires
        thing.walk_ctrl(parent, depth, a).visits.len() <= a.len(),
        thing.walk_ctrl(parent, depth, a).visits.len() <= b.len(),
        a.take(thing.walk_ctrl(parent, depth, a).visits.len() as int) == b.take(
            thing.walk_ctrl(parent, depth, a).visits.len() as int,
        ),
    ensures
        thing.walk_ctrl(parent, depth, b) == thing.walk_ctrl(parent, depth, a),
    decreases thing, 0nat,
{
    let w = thing.walk_ctrl(parent, depth, a);
    let len = w.visits.len() as int;
    assert(a[0] == a.take(len)[0]);
    assert(b[0] == b.take(len)[0]);
    if a[0] == ForeachCtrl::Continue {
        let n = thing.children().len();
        let below = walk_ctrl_all(thing.children(), n, Some(thing), depth + 1, a.skip(1));
        assert(below.visits.len() == len - 1);
        assert(a.skip(1).take(len - 1) =~= a.take(len).skip(1));
        assert(b.skip(1).take(len - 1) =~= b.take(len).skip(1));
        lemma_walk_ctrl_all_answers(
            thing.children(),
            n,
            Some(thing),
            depth + 1,
            a.skip(1),
            b.skip(1),
        );
    }
}

/// The same, of the controlled walk through the first `n` of `things`.
pub proof fn lemma_walk_ctrl_all_answers(
    things: Seq<Thing>,
    n: nat,
    parent: Option<Thing>,
    depth: nat,
    a: Seq<ForeachCtrl>,
    b: Seq<ForeachCtrl>,
)
    requires
        walk_ctrl_all(things, n, parent, depth, a).visits.len() <= a.len(),
        walk_ctrl_all(things, n, parent, depth, a).visits.len() <= b.len(),
        a.take(walk_ctrl_all(things, n, parent, depth, a).visits.len() as int) == b.take(
            walk_ctrl_all(things, n, parent, depth, a).visits.len() as int,
        ),
    ensures
        walk_ctrl_all(things, n, parent, depth, b) == walk_ctrl_all(things, n, parent, depth, a),
    decreases things, n,
{
    if n == 0 || n > things.len() {
    } else {
        let w = walk_ctrl_all(things, n, parent, depth, a);
        let len = w.visits.len() as int;
        let before = walk_ctrl_all(things, (n - 1) as nat, parent, depth, a);
        let used = before.visits.len() as int;
        assert(used <= len);
        assert(a.take(used) =~= a.take(len).take(used));
        assert(b.take(used) =~= b.take(len).take(used));
        lemma_walk_ctrl_all_answers(things, (n - 1) as nat, parent, depth, a, b);
        if !before.stopped {
            let last = things[n - 1].walk_ctrl(parent, depth, a.skip(used));
            let rest = last.visits.len() as int;
            assert(a.skip(used).take(rest) =~= a.take(len).skip(used));
            assert(b.skip(used).take(rest) =~= b.take(len).skip(used));
            lemma_walk_ctrl_answers(things[n - 1], parent, depth, a.skip(used), b.skip(used));
        }
    }
}

/// A controlled walk through a list that was ended stays as it is when more
/// of the list is taken in.
pub proof fn lemma_walk_ctrl_all_stopped(
    things: Seq<Thing>,
    i: nat,
    n: nat,
    parent: Option<Thing>,
    depth: nat,
    answers: Seq<ForeachCtrl>,
)
    requires
        i <= n <= things.len(),
        walk_ctrl_all(things, i, parent, depth, answers).stopped,
    ensures
        walk_ctrl_all(things, n, parent, depth, answers) == walk_ctrl_all(
            things,
            i,
            parent,
            depth,
            answers,
        ),
    decreases n,
{
    if i < n {
        lemma_walk_ctrl_all_stopped(things, i, (n - 1) as nat, parent, depth, answers);
    }
}

fn foreach_ctrl_helper<'a, F: FnMut(&Thing, Option<&Thing>, usize) -> ForeachCtrl>(
    thing: &'a Thing,
    ancestors: &mut Vec<&'a Thing>,
    f: &mut F,
) -> (r: (ForeachCtrl, Ghost<Seq<ForeachCtrl>>))
    requires
        forall|k: int|
            0 <= k < thing.walk(parent_of(old(ancestors)@), old(ancestors)@.len()).len()
                ==> call_requires(
                *old(f),
                (#[trigger] thing.walk(parent_of(old(ancestors)@), old(ancestors)@.len())[k]).args(),
            ),
    ensures
        *final(f) == *old(f),
        final(ancestors)@ == old(ancestors)@,
        ({
            let w = thing.walk_ctrl(parent_of(old(ancestors)@), old(ancestors)@.len(), r.1@);
            &&& r.1@.len() == w.visits.len()
            &&& forall|k: int|
                0 <= k < r.1@.len() ==> call_ensures(*old(f), (#[trigger] w.visits[k]).args(), r.1@[k])
            &&& r.0 is Break <==> w.stopped
            &&& r.0 is BreakSubtree <==> r.1@[0] is BreakSubtree
        }),
    decreases thing,
{
    let ghost parent = parent_of(ancestors@);
    let ghost depth = ancestors@.len();
    let ghost visits = thing.walk(parent, depth);
    let ghost here = seq![Visit { thing: *thing, parent, depth }];
    let ghost below = walk_all(
        thing.children(),
        thing.children().len(),
        Some(*thing),
        depth + 1,
    );
    let count = ancestors.len();
    let above: Option<&Thing> = if count == 0 {
        None
    } else {
        Some(ancestors[count - 1])
    };
    assert(visits[0].args() == (thing, above, count));
    assert(here[0].args() == (thing, above, count));
    let answer = f(thing, above, count);
    let proceed = match answer {
        ForeachCtrl::Continue => true,
        _ => false,
    };
    if !proceed {
        let ghost single = seq![answer];
        let given = Ghost(single);
        return (answer, given);
    }
    ancestors.push(thing);
    proof {
        assert(parent_of(ancestors@) == Some(*thing));
        assert forall|k: int| 0 <= k < below.len() implies call_requires(
            *f,
            (#[trigger] below[k]).args(),
        ) by {
            assert(below[k] == visits[k + 1]);
        }
    }
    let (stopped, given) = foreach_ctrl_all(&thing.things.values, ancestors, f);
    ancestors.pop();
    let ghost total = seq![ForeachCtrl::Continue] + given@;
    proof {
        assert(ancestors@ =~= old(ancestors)@);
        assert(total.skip(1) =~= given@);
        let reached = walk_ctrl_all(
            thing.children(),
            thing.children().len(),
            Some(*thing),
            depth + 1,
            given@,
        );
        let w = thing.walk_ctrl(parent, depth, total);
        assert(w.visits == here + reached.visits);
        assert forall|k: int| 0 <= k < total.len() implies call_ensures(
            *old(f),
            (#[trigger] w.visits[k]).args(),
            total[k],
        ) by {
            if k > 0 {
                assert(w.visits[k] == reached.visits[k - 1]);
                assert(total[k] == given@[k - 1]);
            }
        }
    }
    let answers = Ghost(total);
    if stopped {
        (ForeachCtrl::Break, answers)
    } else {
        (ForeachCtrl::Continue, answers)
    }
}

fn foreach_ctrl_all<'a, F: FnMut(&Thing, Option<&Thing>, usize) -> ForeachCtrl>(
    things: &'a Vec<Thing>,
    ancestors: &mut Vec<&'a Thing>,
    f: &mut F,
) -> (r: (bool, Ghost<Seq<ForeachCtrl>>))
    requires
        forall|k: int|
            0 <= k < walk_all(
                things@,
                things@.len(),
                parent_of(old(ancestors)@),
                old(ancestors)@.len(),
            ).len() ==> call_requires(
                *old(f),
                (#[trigger] walk_all(
                    things@,
                    things@.len(),
                    parent_of(old(ancestors)@),
                    old(ancestors)@.len(),
                )[k]).args(),
            ),
    ensures
        *final(f) == *old(f),
        final(ancestors)@ == old(ancestors)@,
        ({
            let w = walk_ctrl_all(
                things@,
                things@.len(),
                parent_of(old(ancestors)@),
                old(ancestors)@.len(),
                r.1@,
            );
            &&& r.1@.len() == w.visits.len()
            &&& forall|k: int|
                0 <= k < r.1@.len() ==> call_ensures(*old(f), (#[trigger] w.visits[k]).args(), r.1@[k])
            &&& r.0 == w.stopped
        }),
    decreases things,
{
    let ghost parent = parent_of(ancestors@);
    let ghost depth = ancestors@.len();
    let n = things.len();
    let ghost all = walk_all(things@, n as nat, parent, depth);
    let ghost mut answers: Seq<ForeachCtrl> = Seq::empty();
    let mut i: usize = 0;
    let mut stopped = false;
    while i < n && !stopped
        invariant
            0 <= i <= n,
            n == things@.len(),
            *f == *old(f),
            ancestors@ == old(ancestors)@,
            parent == parent_of(ancestors@),
            depth == ancestors@.len(),
            all == walk_all(things@, n as nat, parent, depth),
            forall|k: int| 0 <= k < all.len() ==> call_requires(*f, (#[trigger] all[k]).args()),
            answers.len() == walk_ctrl_all(things@, i as nat, parent, depth, answers).visits.len(),
            stopped == walk_ctrl_all(things@, i as nat, parent, depth, answers).stopped,
            forall|k: int|
                0 <= k < answers.len() ==> call_ensures(
                    *f,
                    (#[trigger] walk_ctrl_all(things@, i as nat, parent, depth, answers).visits[k]).args(),
                    answers[k],
                ),
        decreases n - i + if stopped { 0int } else { 1int },
    {
        let ghost done = walk_all(things@, i as nat, parent, depth);
        let ghost next = walk_all(things@, (i + 1) as nat, parent, depth);
        let ghost before = walk_ctrl_all(things@, i as nat, parent, depth, answers);
        let thing = &things[i];
        let ghost below = thing.walk(parent, depth);
        proof {
            assert(next == done + below);
            lemma_walk_all_prefix(things@, (i + 1) as nat, n as nat, parent, depth);
            assert forall|k: int| 0 <= k < below.len() implies call_requires(
                *f,
                (#[trigger] below[k]).args(),
            ) by {
                assert(below[k] == next[done.len() + k]);
                assert(next[done.len() + k] == all[done.len() + k]);
            }
        }
        let (ctrl, given) = foreach_ctrl_helper(thing, ancestors, f);
        proof {
            let last = thing.walk_ctrl(parent, depth, given@);
            let longer = answers + given@;
            assert(longer.take(answers.len() as int) =~= answers);
            assert(answers.take(answers.len() as int) =~= answers);
            lemma_walk_ctrl_all_answers(things@, i as nat, parent, depth, answers, longer);
            assert(longer.skip(answers.len() as int) =~= given@);
            let after = walk_ctrl_all(things@, (i + 1) as nat, parent, depth, longer);
            assert(after.visits == before.visits + last.visits);
            assert(after.stopped == last.stopped);
            assert forall|k: int| 0 <= k < longer.len() implies call_ensures(
                *f,
                (#[trigger] after.visits[k]).args(),
                longer[k],
            ) by {
                if k < answers.len() {
                    assert(after.visits[k] == before.visits[k]);
                } else {
                    assert(after.visits[k] == last.visits[k - answers.len()]);
                    assert(longer[k] == given@[k - answers.len()]);
                }
            }
            answers = longer;
        }
        stopped = match ctrl {
            ForeachCtrl::Break => true,
            _ => false,
        };
        i += 1;
    }
    proof {
        if i < n {
            lemma_walk_ctrl_all_stopped(things@, i as nat, n as nat, parent, depth, answers);
        }
    }
    let given = Ghost(answers);
    (stopped, given)
}

impl Thing {
    /// Calls `f` on this thing and on the things below it, each one before the
    /// things below it, and does what `f` answers: on `Continue` it goes on
    /// with the things below the one visited, on `BreakSubtree` it leaves them
    /// out, and on `Break` it ends the walk at once.
    pub fn foreach_ctrl<F: FnMut(&Thing, Option<&Thing>, usize) -> ForeachCtrl>(&self, f: F)
        requires
            forall|k: int|
                0 <= k < self.walk(None, 0).len() ==> call_requires(
                    f,
                    (#[trigger] self.walk(None, 0)[k]).args(),
                ),
        ensures
            exists|answers: Seq<ForeachCtrl>| self.walked_by(f, answers),
    {
        let mut f = f;
        let mut ancestors: Vec<&Thing> = Vec::new();
        let (_, answers) = foreach_ctrl_helper(self, &mut ancestors, &mut f);
        assert(self.walked_by(f, answers@));
    }
}

/// Calls `f` on the things of a forest, root by root, as
/// [`Thing::foreach_ctrl`] does on one thing, and does what `f` answers. The
/// answer `Break` ends the walk through the whole forest: no root behind the
/// one where it was given is visited.
pub fn foreach_thing_ctrl<F: FnMut(&Thing, Option<&Thing>, usize) -> ForeachCtrl>(
    things: &Vec<Thing>,
    f: F,
)
    requires
        forall|k: int|
            0 <= k < forest_walk(things@).len() ==> call_requires(
                f,
                (#[trigger] forest_walk(things@)[k]).args(),
            ),
    ensures
        exists|answers: Seq<ForeachCtrl>| forest_walked_by(things@, f, answers),
{
    let mut f = f;
    let mut ancestors: Vec<&Thing> = Vec::new();
    assert(forest_walk(things@) == walk_all(
        things@,
        things@.len(),
        parent_of(ancestors@),
        ancestors@.len(),
    ));
    let (_, answers) = foreach_ctrl_all(things, &mut ancestors, &mut f);
    assert(forest_walked_by(things@, f, answers@));
}

/// A visitor that answers `Continue` throughout is led to every thing: the
/// controlled walk is the whole walk, and it is not ended.
pub proof fn lemma_walk_ctrl_continue(
    thing: Thing,
    parent: Option<Thing>,
    depth: nat,
    answers: Seq<ForeachCtrl>,
)
    requires
        answers.len() >= thing.walk(parent, depth).len(),
        forall|k: int| 0 <= k < answers.len() ==> answers[k] == ForeachCtrl::Continue,
    ensures
        thing.walk_ctrl(parent, depth, answers) == (CtrlWalk {
            visits: thing.walk(parent, depth),
            stopped: false,
        }),
    decreases thing, 0nat,
{
    lemma_walk_ctrl_all_continue(
        thing.children(),
        thing.children().len(),
        Some(thing),
        depth + 1,
        answers.skip(1),
    );
}

/// The same, of the controlled walk through the first `n` of `things`.
pub proof fn lemma_walk_ctrl_all_continue(
    things: Seq<Thing>,
    n: nat,
    parent: Option<Thing>,
    depth: nat,
    answers: Seq<ForeachCtrl>,
)
    requires
        n <= things.len(),
        answers.len() >= walk_all(things, n, parent, depth).len(),
        forall|k: int| 0 <= k < answers.len() ==> answers[k] == ForeachCtrl::Continue,
    ensures
        walk_ctrl_all(things, n, parent, depth, answers) == (CtrlWalk {
            visits: walk_all(things, n, parent, depth),
            stopped: false,
        }),
    decreases things, n,
{
    if n > 0 {
        lemma_walk_ctrl_all_continue(things, (n - 1) as nat, parent, depth, answers);
        let before = walk_all(things, (n - 1) as nat, parent, depth);
        lemma_walk_ctrl_continue(things[n - 1], parent, depth, answers.skip(before.len() as int));
    }
}

/// A controlled walk is ended by the answer `Break` and by nothing else, once
/// it has an answer on each visit: `Break` is the answer on the last visit of
/// a walk that is ended, and on no other visit of any walk.
pub proof fn lemma_walk_ctrl_break(
    thing: Thing,
    parent: Option<Thing>,
    depth: nat,
    answers: Seq<ForeachCtrl>,
)
    requires
        thing.walk_ctrl(parent, depth, answers).visits.len() <= answers.len(),
    ensures
        thing.walk_ctrl(parent, depth, answers).visits.len() >= 1,
        thing.walk_ctrl(parent, depth, answers).stopped <==> answers[thing.walk_ctrl(
            parent,
            depth,
            answers,
        ).visits.len() - 1] == ForeachCtrl::Break,
        forall|k: int|
            0 <= k < thing.walk_ctrl(parent, depth, answers).visits.len() - 1 ==> answers[k]
                != ForeachCtrl::Break,
    decreases thing, 0nat,
{
    if answers[0] == ForeachCtrl::Continue {
        let rest = answers.skip(1);
        lemma_walk_ctrl_all_break(
            thing.children(),
            thing.children().len(),
            Some(thing),
            depth + 1,
            rest,
        );
        let w = thing.walk_ctrl(parent, depth, answers);
        assert forall|k: int| 0 <= k < w.visits.len() - 1 implies answers[k]
            != ForeachCtrl::Break by {
            if k > 0 {
                assert(rest[k - 1] == answers[k]);
            }
        }
        if w.visits.len() >= 2 {
            assert(rest[w.visits.len() - 2] == answers[w.visits.len() - 1]);
        }
    }
}

/// The same, of the controlled walk through the first `n` of `things`.
pub proof fn lemma_walk_ctrl_all_break(
    things: Seq<Thing>,
    n: nat,
    parent: Option<Thing>,
    depth: nat,
    answers: Seq<ForeachCtrl>,
)
    requires
        walk_ctrl_all(things, n, parent, depth, answers).visits.len() <= answers.len(),
    ensures
        walk_ctrl_all(things, n, parent, depth, answers).stopped <==> walk_ctrl_all(
            things,
            n,
            parent,
            depth,
            answers,
        ).visits.len() > 0 && answers[walk_ctrl_all(things, n, parent, depth, answers).visits.len()
            - 1] == ForeachCtrl::Break,
        forall|k: int|
            0 <= k < walk_ctrl_all(things, n, parent, depth, answers).visits.len() - 1
                ==> answers[k] != ForeachCtrl::Break,
    decreases things, n,
{
    if n == 0 || n > things.len() {
    } else {
        let all = walk_ctrl_all(things, n, parent, depth, answers);
        let before = walk_ctrl_all(things, (n - 1) as nat, parent, depth, answers);
        lemma_walk_ctrl_all_break(things, (n - 1) as nat, parent, depth, answers);
        if !before.stopped {
            let used = before.visits.len() as int;
            let rest = answers.skip(used);
            lemma_walk_ctrl_break(things[n - 1], parent, depth, rest);
            assert forall|k: int| 0 <= k < all.visits.len() - 1 implies answers[k]
                != ForeachCtrl::Break by {
                if k >= used {
                    assert(rest[k - used] == answers[k]);
                }
            }
            assert(rest[all.visits.len() - used - 1] == answers[all.visits.len() - 1]);
        }
    }
}

/// A controlled walk starts with the thing where it starts, and visits
/// nothing less deep.
pub proof fn lemma_walk_ctrl_depth(
    thing: Thing,
    parent: Option<Thing>,
    depth: nat,
    answers: Seq<ForeachCtrl>,
)
    ensures
        thing.walk_ctrl(parent, depth, answers).visits.len() >= 1,
        thing.walk_ctrl(parent, depth, answers).visits[0] == (Visit { thing, parent, depth }),
        forall|k: int|
            0 <= k < thing.walk_ctrl(parent, depth, answers).visits.len() ==> (
            #[trigger] thing.walk_ctrl(parent, depth, answers).visits[k]).depth >= depth,
    decreases thing, 0nat,
{
    if answers.len() > 0 && answers[0] == ForeachCtrl::Continue {
        lemma_walk_ctrl_all_depth(
            thing.children(),
            thing.children().len(),
            Some(thing),
            depth + 1,
            answers.skip(1),
        );
    }
}

/// The same, of the controlled walk through the first `n` of `things`.
pub proof fn lemma_walk_ctrl_all_depth(
    things: Seq<Thing>,
    n: nat,
    parent: Option<Thing>,
    depth: nat,
    answers: Seq<ForeachCtrl>,
)
    ensures
        forall|k: int|
            0 <= k < walk_ctrl_all(things, n, parent, depth, answers).visits.len() ==> (
            #[trigger] walk_ctrl_all(things, n, parent, depth, answers).visits[k]).depth >= depth,
    decreases things, n,
{
    if n == 0 || n > things.len() {
    } else {
        let before = walk_ctrl_all(things, (n - 1) as nat, parent, depth, answers);
        lemma_walk_ctrl_all_depth(things, (n - 1) as nat, parent, depth, answers);
        if !before.stopped {
            let used = before.visits.len() as int;
            lemma_walk_ctrl_depth(things[n - 1], parent, depth, answers.skip(used));
        }
    }
}

/// The answer `BreakSubtree` leaves out what stands below the thing visited:
/// the visit that follows, if any, is not deeper than that thing.
pub proof fn lemma_walk_ctrl_break_subtree(
    thing: Thing,
    parent: Option<Thing>,
    depth: nat,
    answers: Seq<ForeachCtrl>,
)
    requires
        thing.walk_ctrl(parent, depth, answers).visits.len() <= answers.len(),
    ensures
        forall|k: int|
            0 <= k && k + 1 < thing.walk_ctrl(parent, depth, answers).visits.len() && answers[k]
                == ForeachCtrl::BreakSubtree ==> thing.walk_ctrl(parent, depth, answers).visits[k
                + 1].depth <= (#[trigger] thing.walk_ctrl(parent, depth, answers).visits[k]).depth,
    decreases thing, 0nat,
{
    if answers[0] == ForeachCtrl::Continue {
        let rest = answers.skip(1);
        let w = thing.walk_ctrl(parent, depth, answers);
        let below = walk_ctrl_all(
            thing.children(),
            thing.children().len(),
            Some(thing),
            depth + 1,
            rest,
        );
        lemma_walk_ctrl_all_break_subtree(
            thing.children(),
            thing.children().len(),
            Some(thing),
            depth + 1,
            rest,
        );
        assert forall|k: int|
            0 <= k && k + 1 < w.visits.len() && answers[k]
                == ForeachCtrl::BreakSubtree implies w.visits[k + 1].depth <= (
        #[trigger] w.visits[k]).depth by {
            if k > 0 {
                assert(w.visits[k] == below.visits[k - 1]);
                assert(w.visits[k + 1] == below.visits[k]);
                assert(rest[k - 1] == answers[k]);
            }
        }
    }
}

/// The same, of the controlled walk through the first `n` of `things`.
pub proof fn lemma_walk_ctrl_all_break_subtree(
    things: Seq<Thing>,
    n: nat,
    parent: Option<Thing>,
    depth: nat,
    answers: Seq<ForeachCtrl>,
)
    requires
        walk_ctrl_all(things, n, parent, depth, answers).visits.len() <= answers.len(),
    ensures
        forall|k: int|
            0 <= k && k + 1 < walk_ctrl_all(things, n, parent, depth, answers).visits.len()
                && answers[k] == ForeachCtrl::BreakSubtree ==> walk_ctrl_all(
                things,
                n,
                parent,
                depth,
                answers,
            ).visits[k + 1].depth <= (#[trigger] walk_ctrl_all(
                things,
                n,
                parent,
                depth,
                answers,
            ).visits[k]).depth,
    decreases things, n,
{
    if n == 0 || n > things.len() {
    } else {
        let all = walk_ctrl_all(things, n, parent, depth, answers);
        let before = walk_ctrl_all(things, (n - 1) as nat, parent, depth, answers);
        lemma_walk_ctrl_all_break_subtree(things, (n - 1) as nat, parent, depth, answers);
        lemma_walk_ctrl_all_depth(things, (n - 1) as nat, parent, depth, answers);
        if !before.stopped {
            let used = before.visits.len() as int;
            let last = things[n - 1].walk_ctrl(parent, depth, answers.skip(used));
            lemma_walk_ctrl_break_subtree(things[n - 1], parent, depth, answers.skip(used));
            lemma_walk_ctrl_depth(things[n - 1], parent, depth, answers.skip(used));
            assert forall|k: int|
                0 <= k && k + 1 < all.visits.len() && answers[k]
                    == ForeachCtrl::BreakSubtree implies all.visits[k + 1].depth <= (
            #[trigger] all.visits[k]).depth by {
                if k + 1 < used {
                    assert(all.visits[k] == before.visits[k]);
                    assert(all.visits[k + 1] == before.visits[k + 1]);
                } else if k + 1 == used {
                    assert(all.visits[k] == before.visits[k]);
                    assert(all.visits[k + 1] == last.visits[0]);
                } else {
                    assert(all.visits[k] == last.visits[k - used]);
                    assert(all.visits[k + 1] == last.visits[k - used + 1]);
                    assert(answers.skip(used)[k - used] == answers[k]);
                }
            }
        }
    }
}

} // verus!
