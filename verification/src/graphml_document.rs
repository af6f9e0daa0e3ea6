//! The GraphML filter over a whole document. A run is the sequence of states,
//! events and actions of consecutive `GraphmlFilter::step` calls, with the
//! caller's weight decision recorded after each `WeighThenHold`. The caller
//! copies `Write` events to the output, collects held events, and on
//! `Release(keep)` writes the collected edge or drops it; `emitted` is that
//! output. The law here says which events of the document end up in it.
use vstd::prelude::*;
use crate::graphml_filter::{
    law_inside_edges_events_held, law_outside_edges_events_pass, open_rule, step_spec, FilterAction,
    FilterError, FilterStats, GraphmlFilter, OpenRule, XmlEvent,
};

verus! {

/// The state `record_weight` leaves: the held edge now carries a decision
/// and is no longer inside its weight; nothing else changes.
pub open spec fn weighed(m: GraphmlFilter, f: GraphmlFilter) -> bool {
    &&& m.edge is Some
    &&& f.edge matches Some(h) && h.weight is Some && !h.reading_weight
    &&& f.stats == m.stats
    &&& f.depth == m.depth
    &&& f.root_seen == m.root_seen
    &&& f.graph_seen == m.graph_seen
    &&& f.weight_keys == m.weight_keys
}

/// A filter before the first event, as `GraphmlFilter::new` makes it.
pub open spec fn fresh(s: GraphmlFilter) -> bool {
    &&& s.edge is None
    &&& s.depth == 0
    &&& s.stats == FilterStats { nodes: 0, edges_read: 0, edges_kept: 0 }
}

/// An accepted run over `events`: `states[i]` is the filter before event `i`,
/// `mids[i]` the filter the step leaves, and `actions[i]` the step's action;
/// after a `WeighThenHold` the caller records a weight decision.
pub open spec fn filter_run(
    states: Seq<GraphmlFilter>,
    mids: Seq<GraphmlFilter>,
    events: Seq<XmlEvent>,
    actions: Seq<FilterAction>,
) -> bool {
    &&& states.len() == events.len() + 1
    &&& mids.len() == events.len()
    &&& actions.len() == events.len()
    &&& forall|i: int| #![trigger actions[i]] 0 <= i < events.len() ==> {
        &&& step_spec(states[i], mids[i], events[i], Ok::<FilterAction, FilterError>(actions[i]))
        &&& if actions[i] is WeighThenHold {
            weighed(mids[i], states[i + 1])
        } else {
            states[i + 1] == mids[i]
        }
    }
}

/// What the caller writes for these actions, and what it still holds: event
/// indices, in the order written.
pub open spec fn emitted(actions: Seq<FilterAction>) -> (Seq<int>, Seq<int>)
    decreases actions.len(),
{
    if actions.len() == 0 {
        (Seq::empty(), Seq::empty())
    } else {
        let (out, held) = emitted(actions.drop_last());
        let i = actions.len() - 1;
        match actions.last() {
            FilterAction::Write => (out.push(i), held),
            FilterAction::Hold => (out, held.push(i)),
            FilterAction::WeighThenHold(_) => (out, held.push(i)),
            FilterAction::Release(keep) => if keep {
                (out + held.push(i), Seq::empty())
            } else {
                (out, Seq::empty())
            },
            FilterAction::Finish => (out, held),
        }
    }
}

/// Whether event `q` reaches the output: it is written at once, or it is
/// held until a release that keeps it.
pub open spec fn fate(actions: Seq<FilterAction>, q: int) -> bool
    decreases actions.len() - q,
{
    if q < 0 || q >= actions.len() {
        false
    } else {
        match actions[q] {
            FilterAction::Write => true,
            FilterAction::Release(keep) => keep,
            FilterAction::Finish => false,
            _ => fate(actions, q + 1),
        }
    }
}

/// The indices below `n` whose event reaches the output, in increasing order.
pub open spec fn written_upto(actions: Seq<FilterAction>, n: int) -> Seq<int>
    decreases n,
{
    if n <= 0 {
        Seq::empty()
    } else if fate(actions, n - 1) {
        written_upto(actions, n - 1).push(n - 1)
    } else {
        written_upto(actions, n - 1)
    }
}

/// The number of releases among the actions, of kept edges only when `kept`.
pub open spec fn releases(actions: Seq<FilterAction>, kept: bool) -> nat
    decreases actions.len(),
{
    if actions.len() == 0 {
        0
    } else {
        releases(actions.drop_last(), kept) + match actions.last() {
            FilterAction::Release(keep) => if keep || !kept { 1nat } else { 0nat },
            _ => 0nat,
        }
    }
}

/// The event is a `<node>` start tag.
pub open spec fn opens_node(event: XmlEvent) -> bool {
    event matches XmlEvent::Open { name, attributes, .. } && open_rule(name@, attributes@) == OpenRule::Node
}

/// The event is an `<edge>` start tag.
pub open spec fn opens_edge(event: XmlEvent) -> bool {
    event matches XmlEvent::Open { name, attributes, .. } && open_rule(name@, attributes@) == OpenRule::Edge
}

/// The number of `<node>` start tags among the events.
pub open spec fn node_count(events: Seq<XmlEvent>) -> nat
    decreases events.len(),
{
    if events.len() == 0 {
        0
    } else {
        node_count(events.drop_last()) + if opens_node(events.last()) { 1nat } else { 0nat }
    }
}

/// The counts a step adds and whether it leaves an edge held.
proof fn lemma_step(o: GraphmlFilter, f: GraphmlFilter, event: XmlEvent, a: FilterAction)
    requires
        step_spec(o, f, event, Ok::<FilterAction, FilterError>(a)),
    ensures
        f.stats.edges_read == o.stats.edges_read + if a is Release { 1int } else { 0int },
        f.stats.edges_kept == o.stats.edges_kept + if a == FilterAction::Release(true) { 1int } else { 0int },
        f.stats.nodes == o.stats.nodes + if opens_node(event) { 1int } else { 0int },
        a == FilterAction::Hold || a is WeighThenHold ==> f.edge is Some,
        a == FilterAction::Write || a == FilterAction::Finish ==> o.edge is None,
        a == FilterAction::Finish ==> event is Eof,
        a is Release ==> (event matches XmlEvent::Close(name) && name@ == "edge"@),
        a is Release ==> (o.edge matches Some(h) && h.weight == Some(a->Release_0)),
        o.edge is None && a == FilterAction::Hold ==> opens_edge(event),
        a == FilterAction::Write <==> (o.edge is None && !opens_edge(event) && !(event is Eof)),
{
    if o.edge is Some {
        law_inside_edges_events_held(o, f, event, Ok::<FilterAction, FilterError>(a));
    } else if !opens_edge(event) && !(event is Eof) {
        law_outside_edges_events_pass(o, f, event, Ok::<FilterAction, FilterError>(a));
    }
}

/// Events `j..n` share the fate of the release that ends them.
proof fn lemma_fate_chain(actions: Seq<FilterAction>, j: int, n: int, keep: bool)
    requires
        0 <= j <= n < actions.len(),
        actions[n] == FilterAction::Release(keep),
        forall|q: int| j <= q < n ==> (#[trigger] actions[q] == FilterAction::Hold || actions[q] is WeighThenHold),
    ensures
        forall|q: int| j <= q <= n ==> #[trigger] fate(actions, q) == keep,
    decreases n - j,
{
    if j < n {
        lemma_fate_chain(actions, j + 1, n, keep);
        assert(actions[j] == FilterAction::Hold || actions[j] is WeighThenHold);
        assert(fate(actions, j) == fate(actions, j + 1));
    }
}

/// The written indices from `j` to `n` when all of them share one fate.
proof fn lemma_written_range(actions: Seq<FilterAction>, j: int, n: int, keep: bool)
    requires
        0 <= j <= n,
        forall|q: int| j <= q < n ==> #[trigger] fate(actions, q) == keep,
    ensures
        written_upto(actions, n) == written_upto(actions, j) + if keep {
            Seq::new((n - j) as nat, |q: int| j + q)
        } else {
            Seq::<int>::empty()
        },
    decreases n - j,
{
    if j < n {
        lemma_written_range(actions, j, n - 1, keep);
        assert(fate(actions, n - 1) == keep);
        if keep {
            assert(Seq::new((n - j) as nat, |q: int| j + q) =~= Seq::new((n - 1 - j) as nat, |q: int| j + q).push(n - 1));
        }
    } else {
        assert(written_upto(actions, j) + Seq::<int>::empty() =~= written_upto(actions, j));
        if keep {
            assert(Seq::new((n - j) as nat, |q: int| j + q) =~= Seq::<int>::empty());
        }
    }
}

/// After the first `n` events: what has been written is exactly the events
/// below the first still-held one that reach the output; the held events are
/// the ones since then, all waiting for their edge's release; and the counts
/// agree with the actions and events so far.
proof fn lemma_run_prefix(
    states: Seq<GraphmlFilter>,
    mids: Seq<GraphmlFilter>,
    events: Seq<XmlEvent>,
    actions: Seq<FilterAction>,
    n: int,
)
    requires
        filter_run(states, mids, events, actions),
        fresh(states[0]),
        0 <= n <= events.len(),
    ensures
        ({
            let (out, held) = emitted(actions.take(n));
            let j = n - held.len();
            &&& 0 <= j <= n
            &&& held == Seq::new(held.len(), |q: int| j + q)
            &&& out == written_upto(actions, j)
            &&& forall|q: int| j <= q < n ==> (#[trigger] actions[q] == FilterAction::Hold || actions[q] is WeighThenHold)
            &&& held.len() > 0 ==> states[n].edge is Some
        }),
        states[n].stats.edges_read == releases(actions.take(n), false),
        states[n].stats.edges_kept == releases(actions.take(n), true),
        states[n].stats.nodes == node_count(events.take(n)),
    decreases n,
{
    if n == 0 {
        assert(actions.take(0) =~= Seq::<FilterAction>::empty());
        assert(events.take(0) =~= Seq::<XmlEvent>::empty());
        assert(Seq::new(0, |q: int| 0 + q) =~= Seq::<int>::empty());
    } else {
        let i = n - 1;
        lemma_run_prefix(states, mids, events, actions, i);
        let a = actions[i];
        lemma_step(states[i], mids[i], events[i], a);
        assert(actions.take(n).drop_last() =~= actions.take(i));
        assert(actions.take(n).last() == a);
        assert(events.take(n).drop_last() =~= events.take(i));
        assert(events.take(n).last() == events[i]);
        let (out0, held0) = emitted(actions.take(i));
        let j0 = i - held0.len();
        match a {
            FilterAction::Write => {
                assert(held0.len() == 0);
                assert(fate(actions, i));
                assert(Seq::new(0, |q: int| n + q) =~= Seq::<int>::empty());
            },
            FilterAction::Hold => {
                assert(held0.push(i) =~= Seq::new((held0.len() + 1) as nat, |q: int| j0 + q));
            },
            FilterAction::WeighThenHold(_) => {
                assert(held0.push(i) =~= Seq::new((held0.len() + 1) as nat, |q: int| j0 + q));
            },
            FilterAction::Release(keep) => {
                lemma_fate_chain(actions, j0, i, keep);
                lemma_written_range(actions, j0, n, keep);
                if keep {
                    assert(held0.push(i) =~= Seq::new((n - j0) as nat, |q: int| j0 + q));
                } else {
                    assert(out0 + Seq::<int>::empty() =~= out0);
                }
                assert(Seq::new(0, |q: int| n + q) =~= Seq::<int>::empty());
            },
            FilterAction::Finish => {
                assert(held0.len() == 0);
                assert(!fate(actions, i));
                assert(Seq::new(0, |q: int| n + q) =~= Seq::<int>::empty());
            },
        }
    }
}

/// The filter over a whole document. For an accepted run from a fresh filter
/// that ends with `Finish`:
/// - the output is exactly the events that reach it, in document order, and
///   nothing is left held;
/// - an event is written at once exactly when no edge is held, it is not an
///   `<edge>` start tag and it is not the end of input: every node and all
///   graph metadata are copied unchanged;
/// - held events start at an `<edge>` start tag and run, without a break, to
///   that edge's end tag, which releases the edge whole, kept exactly when its
///   recorded weight decision says so;
/// - the counts are the number of `<node>` start tags, of edges released and
///   of edges kept.
pub proof fn law_document_filtered(
    states: Seq<GraphmlFilter>,
    mids: Seq<GraphmlFilter>,
    events: Seq<XmlEvent>,
    actions: Seq<FilterAction>,
)
    requires
        filter_run(states, mids, events, actions),
        fresh(states[0]),
        events.len() > 0,
        actions.last() == FilterAction::Finish,
    ensures
        emitted(actions).0 == written_upto(actions, events.len() as int),
        emitted(actions).1.len() == 0,
        forall|i: int| 0 <= i < events.len() ==> (#[trigger] actions[i] == FilterAction::Write
            <==> (states[i].edge is None && !opens_edge(events[i]) && !(events[i] is Eof))),
        forall|i: int| 0 <= i < events.len() && states[i].edge is None && #[trigger] actions[i] == FilterAction::Hold
            ==> opens_edge(events[i]),
        forall|i: int| 0 <= i < events.len() && states[i].edge is Some ==> {
            ||| #[trigger] actions[i] == FilterAction::Hold
            ||| actions[i] is WeighThenHold
            ||| actions[i] is Release
        },
        forall|i: int| 0 <= i < events.len() && #[trigger] actions[i] is Release ==> {
            &&& events[i] matches XmlEvent::Close(name) && name@ == "edge"@
            &&& states[i].edge matches Some(h) && h.weight == Some(actions[i]->Release_0)
            &&& states[i + 1].edge is None
        },
        states.last().stats.nodes == node_count(events),
        states.last().stats.edges_read == releases(actions, false),
        states.last().stats.edges_kept == releases(actions, true),
{
    let k = events.len() as int;
    lemma_run_prefix(states, mids, events, actions, k);
    assert(actions.take(k) =~= actions);
    assert(events.take(k) =~= events);
    lemma_run_prefix(states, mids, events, actions, k - 1);
    lemma_step(states[k - 1], mids[k - 1], events[k - 1], actions[k - 1]);
    assert(actions.take(k).drop_last() =~= actions.take(k - 1));
    assert forall|i: int| 0 <= i < events.len() implies {
        &&& (#[trigger] actions[i] == FilterAction::Write <==> (states[i].edge is None && !opens_edge(events[i])
            && !(events[i] is Eof)))
        &&& (states[i].edge is None && actions[i] == FilterAction::Hold ==> opens_edge(events[i]))
        &&& (states[i].edge is Some ==> (actions[i] == FilterAction::Hold || actions[i] is WeighThenHold
            || actions[i] is Release))
        &&& (actions[i] is Release ==> {
            &&& events[i] matches XmlEvent::Close(name) && name@ == "edge"@
            &&& states[i].edge matches Some(h) && h.weight == Some(actions[i]->Release_0)
            &&& states[i + 1].edge is None
        })
    } by {
        lemma_step(states[i], mids[i], events[i], actions[i]);
        if states[i].edge is Some {
            law_inside_edges_events_held(states[i], mids[i], events[i], Ok::<FilterAction, FilterError>(actions[i]));
        }
    }
}

} // verus!
