//! Repeat actions: how the raw repeat markers of a column become countable
//! jumps, and what a visit of the column does to them.

use vstd::prelude::*;

verus! {

/// A jump back from the column it is attached to.
#[derive(Clone, Copy, PartialEq, Eq, Structural, Debug)]
pub struct RepeatEnd {
    /// The column that the jump goes to.
    pub start_pos: usize,
    /// How often the jump has been taken in the current round.
    pub use_counter: i32,
    /// How often the jump is taken in one round.
    pub max_use: i32,
}

/// How often `start` occurs among `markers`.
pub open spec fn occurrences(markers: Seq<usize>, start: usize) -> nat
    decreases markers.len(),
{
    if markers.len() == 0 {
        0
    } else {
        occurrences(markers.drop_last(), start) + if markers.last() == start {
            1nat
        } else {
            0nat
        }
    }
}

/// The actions for the markers that lie below `bound`: one for each
/// distinct column, in ascending order, taken as often as the column
/// occurs, and not yet taken.
pub open spec fn resolved_below(markers: Seq<usize>, bound: nat) -> Seq<RepeatEnd>
    decreases bound,
{
    if bound == 0 {
        Seq::empty()
    } else {
        let lower = resolved_below(markers, (bound - 1) as nat);
        let start = (bound - 1) as usize;
        if occurrences(markers, start) > 0 {
            lower.push(
                RepeatEnd {
                    start_pos: start,
                    use_counter: 0,
                    max_use: occurrences(markers, start) as i32,
                },
            )
        } else {
            lower
        }
    }
}

/// The actions that the markers of one column resolve to.
pub open spec fn resolution(markers: Seq<usize>) -> Seq<RepeatEnd> {
    resolved_below(markers, (usize::MAX + 1) as nat)
}

/// Whether `actions` counts `markers`: the actions go to ascending,
/// distinct columns, every column among the markers has its action, and
/// each action is taken as often as its column occurs and not yet taken.
pub open spec fn tallies(actions: Seq<RepeatEnd>, markers: Seq<usize>) -> bool {
    &&& forall|i: int, j: int|
        0 <= i < j < actions.len() ==> actions[i].start_pos < actions[j].start_pos
    &&& forall|i: int|
        0 <= i < actions.len() ==> {
            &&& (#[trigger] actions[i]).use_counter == 0
            &&& actions[i].max_use >= 1
            &&& actions[i].max_use == occurrences(markers, actions[i].start_pos)
        }
    &&& forall|start: usize| #[trigger]
        occurrences(markers, start) > 0 ==> exists|i: int|
            0 <= i < actions.len() && (#[trigger] actions[i]).start_pos == start
}

/// A column cannot occur more often than there are markers.
pub proof fn lemma_occurrences_bound(markers: Seq<usize>, start: usize)
    ensures
        occurrences(markers, start) <= markers.len(),
    decreases markers.len(),
{
    if markers.len() > 0 {
        lemma_occurrences_bound(markers.drop_last(), start);
    }
}

/// Only one sequence of actions below a bound counts given markers.
proof fn lemma_tallies_below(actions: Seq<RepeatEnd>, markers: Seq<usize>, bound: nat)
    requires
        bound <= usize::MAX + 1,
        forall|i: int|
            0 <= i < actions.len() ==> {
                &&& (#[trigger] actions[i]).use_counter == 0
                &&& actions[i].max_use >= 1
                &&& actions[i].max_use == occurrences(markers, actions[i].start_pos)
                &&& actions[i].start_pos < bound
            },
        forall|i: int, j: int|
            0 <= i < j < actions.len() ==> actions[i].start_pos < actions[j].start_pos,
        forall|start: usize|
            start < bound && #[trigger] occurrences(markers, start) > 0 ==> exists|i: int|
                0 <= i < actions.len() && (#[trigger] actions[i]).start_pos == start,
    ensures
        actions == resolved_below(markers, bound),
    decreases bound,
{
    if bound == 0 {
        if actions.len() > 0 {
            assert(actions[0].start_pos < bound);
        }
        assert(actions =~= Seq::<RepeatEnd>::empty());
    } else {
        let start = (bound - 1) as usize;
        if occurrences(markers, start) > 0 {
            let at = choose|i: int|
                0 <= i < actions.len() && (#[trigger] actions[i]).start_pos == start;
            if at < actions.len() - 1 {
                assert(actions[at].start_pos < actions[actions.len() - 1].start_pos);
                assert(actions[actions.len() - 1].start_pos < bound);
            }
            let lower = actions.drop_last();
            assert forall|i: int| 0 <= i < lower.len() implies (#[trigger] lower[i]).start_pos
                < bound - 1 by {
                assert(lower[i] == actions[i]);
                assert(actions[i].start_pos < actions[at].start_pos);
            }
            assert forall|other: usize|
                other < bound - 1 && #[trigger] occurrences(markers, other) > 0 implies exists|
                i: int,
            |
                0 <= i < lower.len() && (#[trigger] lower[i]).start_pos == other by {
                let i = choose|i: int|
                    0 <= i < actions.len() && (#[trigger] actions[i]).start_pos == other;
                assert(lower[i] == actions[i]);
            }
            lemma_tallies_below(lower, markers, (bound - 1) as nat);
            assert(actions =~= lower.push(actions[at]));
        } else {
            assert forall|i: int| 0 <= i < actions.len() implies (#[trigger] actions[i]).start_pos
                < bound - 1 by {
                if actions[i].start_pos == start {
                    assert(actions[i].max_use >= 1);
                }
            }
            lemma_tallies_below(actions, markers, (bound - 1) as nat);
        }
    }
}

/// The resolution of markers is the one sequence of actions that counts
/// them.
pub proof fn lemma_resolution_unique(actions: Seq<RepeatEnd>, markers: Seq<usize>)
    requires
        tallies(actions, markers),
    ensures
        actions == resolution(markers),
{
    lemma_tallies_below(actions, markers, (usize::MAX + 1) as nat);
}

/// Resolves the markers of one column into its actions.
pub fn resolve_column(markers: &Vec<usize>) -> (actions: Vec<RepeatEnd>)
    requires
        markers.len() <= i32::MAX,
    ensures
        actions@ == resolution(markers@),
{
    let mut actions: Vec<RepeatEnd> = Vec::new();
    let mut k: usize = 0;
    while k < markers.len()
        invariant
            k <= markers.len() <= i32::MAX,
            tallies(actions@, markers@.take(k as int)),
        decreases markers.len() - k,
    {
        let start = markers[k];
        let ghost seen = markers@.take(k as int);
        let ghost before = actions@;
        proof {
            assert(markers@.take(k + 1).drop_last() =~= seen);
            assert(markers@.take(k + 1).last() == start);
            lemma_occurrences_bound(seen, start);
        }
        let mut i: usize = 0;
        while i < actions.len() && actions[i].start_pos < start
            invariant
                i <= actions.len(),
                forall|j: int| 0 <= j < i ==> actions[j].start_pos < start,
            decreases actions.len() - i,
        {
            i += 1;
        }
        if i < actions.len() && actions[i].start_pos == start {
            let counted = actions[i];
            actions.set(
                i,
                RepeatEnd { start_pos: start, use_counter: 0, max_use: counted.max_use + 1 },
            );
            proof {
                assert forall|other: usize| #[trigger]
                    occurrences(markers@.take(k + 1), other) > 0 implies exists|j: int|
                    0 <= j < actions.len() && (#[trigger] actions[j]).start_pos == other by {
                    if other == start {
                        assert(actions[i as int].start_pos == other);
                    } else {
                        assert(occurrences(seen, other) > 0);
                        let j = choose|j: int|
                            0 <= j < before.len() && (#[trigger] before[j]).start_pos == other;
                        assert(actions[j] == before[j]);
                    }
                }
                assert forall|j: int| 0 <= j < actions.len() implies {
                    &&& (#[trigger] actions[j]).use_counter == 0
                    &&& actions[j].max_use >= 1
                    &&& actions[j].max_use == occurrences(
                        markers@.take(k + 1),
                        actions[j].start_pos,
                    )
                } by {
                    if j != i {
                        assert(actions[j] == before[j]);
                        assert(before[j].start_pos != before[i as int].start_pos);
                    }
                }
            }
        } else {
            proof {
                if occurrences(seen, start) > 0 {
                    let j = choose|j: int|
                        0 <= j < before.len() && (#[trigger] before[j]).start_pos == start;
                    if j < i {
                        assert(before[j].start_pos < start);
                    } else {
                        assert(before[i as int].start_pos <= before[j].start_pos);
                    }
                }
            }
            actions.insert(i, RepeatEnd { start_pos: start, use_counter: 0, max_use: 1 });
            proof {
                assert forall|a: int, b: int|
                    0 <= a < b < actions.len() implies actions[a].start_pos
                    < actions[b].start_pos by {
                    if b < i {
                        assert(actions[a] == before[a] && actions[b] == before[b]);
                    } else if b == i {
                        assert(actions[a] == before[a]);
                    } else if a < i {
                        assert(actions[a] == before[a] && actions[b] == before[b - 1]);
                        assert(before[i as int].start_pos <= before[b - 1].start_pos);
                    } else if a == i {
                        assert(actions[b] == before[b - 1]);
                        assert(before[i as int].start_pos <= before[b - 1].start_pos);
                    } else {
                        assert(actions[a] == before[a - 1] && actions[b] == before[b - 1]);
                    }
                }
                assert forall|j: int| 0 <= j < actions.len() implies {
                    &&& (#[trigger] actions[j]).use_counter == 0
                    &&& actions[j].max_use >= 1
                    &&& actions[j].max_use == occurrences(
                        markers@.take(k + 1),
                        actions[j].start_pos,
                    )
                } by {
                    if j < i {
                        assert(actions[j] == before[j]);
                    } else if j > i {
                        assert(actions[j] == before[j - 1]);
                        assert(before[i as int].start_pos <= before[j - 1].start_pos);
                    }
                }
                assert forall|other: usize| #[trigger]
                    occurrences(markers@.take(k + 1), other) > 0 implies exists|j: int|
                    0 <= j < actions.len() && (#[trigger] actions[j]).start_pos == other by {
                    if other == start {
                        assert(actions[i as int].start_pos == other);
                    } else {
                        assert(occurrences(seen, other) > 0);
                        let j = choose|j: int|
                            0 <= j < before.len() && (#[trigger] before[j]).start_pos == other;
                        if j < i {
                            assert(actions[j] == before[j]);
                        } else {
                            assert(actions[j + 1] == before[j]);
                        }
                    }
                }
            }
        }
        k += 1;
    }
    proof {
        assert(markers@.take(markers.len() as int) =~= markers@);
        lemma_resolution_unique(actions@, markers@);
    }
    actions
}

/// The actions that the markers of every column resolve to.
pub open spec fn plan_of(markers: Seq<Seq<usize>>) -> Seq<Seq<RepeatEnd>> {
    Seq::new(markers.len(), |x: int| resolution(markers[x]))
}

/// The markers of every column as mathematical sequences.
pub open spec fn markers_view(repeat_ends: Seq<Vec<usize>>) -> Seq<Seq<usize>> {
    Seq::new(repeat_ends.len(), |x: int| repeat_ends[x]@)
}

/// The actions of every column as mathematical sequences.
pub open spec fn plan_view(plan: Seq<Vec<RepeatEnd>>) -> Seq<Seq<RepeatEnd>> {
    Seq::new(plan.len(), |x: int| plan[x]@)
}

/// Resolves the markers of every column into its actions.
pub fn resolve_repeats(repeat_ends: &Vec<Vec<usize>>) -> (plan: Vec<Vec<RepeatEnd>>)
    requires
        forall|x: int| 0 <= x < repeat_ends.len() ==> (#[trigger] repeat_ends[x]).len() <= i32::MAX,
    ensures
        plan.len() == repeat_ends.len(),
        plan_view(plan@) == plan_of(markers_view(repeat_ends@)),
{
    let mut plan: Vec<Vec<RepeatEnd>> = Vec::new();
    let mut x: usize = 0;
    while x < repeat_ends.len()
        invariant
            x <= repeat_ends.len(),
            plan.len() == x,
            forall|c: int|
                0 <= c < repeat_ends.len() ==> (#[trigger] repeat_ends[c]).len() <= i32::MAX,
            forall|c: int| 0 <= c < x ==> (#[trigger] plan[c])@ == resolution(repeat_ends[c]@),
        decreases repeat_ends.len() - x,
    {
        let actions = resolve_column(&repeat_ends[x]);
        plan.push(actions);
        x += 1;
    }
    proof {
        assert(plan_view(plan@) =~= plan_of(markers_view(repeat_ends@)));
    }
    plan
}

impl RepeatEnd {
    /// Whether the jump is still to be taken in the current round.
    pub open spec fn pending(self) -> bool {
        self.use_counter < self.max_use
    }

    /// The action at the start of a round.
    pub open spec fn rewound(self) -> RepeatEnd {
        RepeatEnd { start_pos: self.start_pos, use_counter: 0, max_use: self.max_use }
    }

    /// The action after its jump has been taken once more.
    pub open spec fn taken(self) -> RepeatEnd {
        RepeatEnd {
            start_pos: self.start_pos,
            use_counter: (self.use_counter + 1) as i32,
            max_use: self.max_use,
        }
    }
}

/// The index of the first action at or after `from` that is pending, or
/// the number of actions if there is none.
pub open spec fn first_pending(actions: Seq<RepeatEnd>, from: int) -> int
    decreases actions.len() - from,
{
    if from < 0 || from >= actions.len() {
        actions.len() as int
    } else if actions[from].pending() {
        from
    } else {
        first_pending(actions, from + 1)
    }
}

/// The actions of a column after one visit: the first pending action is
/// taken, and the exhausted ones before it are rewound, so that they count
/// again when the column is next reached.
pub open spec fn after_visit(actions: Seq<RepeatEnd>) -> Seq<RepeatEnd> {
    let fired = first_pending(actions, 0);
    Seq::new(
        actions.len(),
        |i: int|
            if i < fired {
                actions[i].rewound()
            } else if i == fired {
                actions[i].taken()
            } else {
                actions[i]
            },
    )
}

/// The column that follows a visit of column `x`: where the first pending
/// action goes, or the next column if no action is pending.
pub open spec fn next_column(actions: Seq<RepeatEnd>, x: int) -> int {
    let fired = first_pending(actions, 0);
    if fired < actions.len() {
        actions[fired].start_pos as int
    } else {
        x + 1
    }
}

/// Visits column `x`: evaluates its actions in order and returns the column
/// to go on with.
pub fn visit_column(actions: &mut Vec<RepeatEnd>, x: usize) -> (next: usize)
    requires
        x < usize::MAX,
    ensures
        final(actions)@ == after_visit(old(actions)@),
        next == next_column(old(actions)@, x as int),
{
    let ghost before = actions@;
    let mut i: usize = 0;
    while i < actions.len()
        invariant
            i <= actions.len(),
            before == old(actions)@,
            actions.len() == before.len(),
            first_pending(before, 0) == first_pending(before, i as int),
            forall|j: int| 0 <= j < i ==> actions[j] == before[j].rewound(),
            forall|j: int| i <= j < actions.len() ==> actions[j] == before[j],
        decreases actions.len() - i,
    {
        let action = actions[i];
        if action.use_counter >= action.max_use {
            actions.set(
                i,
                RepeatEnd { start_pos: action.start_pos, use_counter: 0, max_use: action.max_use },
            );
        } else {
            actions.set(
                i,
                RepeatEnd {
                    start_pos: action.start_pos,
                    use_counter: action.use_counter + 1,
                    max_use: action.max_use,
                },
            );
            assert(actions@ =~= after_visit(before));
            return action.start_pos;
        }
        i += 1;
    }
    assert(actions@ =~= after_visit(before));
    x + 1
}

} // verus!
