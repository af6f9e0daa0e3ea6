//! Streaming GraphML edge filter. The reader hands over one XML event at a
//! time; the filter decides what happens to it, holding each edge back until
//! its explicit weight is known. All nodes, graph metadata and the attributes
//! of retained edges pass through unchanged.
use vstd::prelude::*;
use crate::text::str_eq;

verus! {

/// Counts of a filtering run.
#[derive(Clone, Copy, Debug, PartialEq, Eq)]
pub struct FilterStats {
    pub nodes: u64,
    pub edges_read: u64,
    pub edges_kept: u64,
}

/// An XML event, as the filter reads it.
#[derive(Clone, Debug)]
pub enum XmlEvent {
    /// A start tag (`empty` for a self-closing one) with its attributes as
    /// (name, normalized value) pairs.
    Open { name: String, empty: bool, attributes: Vec<(String, String)> },
    /// Character data (text or CDATA).
    Text(String),
    /// A general entity reference such as `&amp;`.
    EntityRef,
    /// An end tag.
    Close(String),
    /// End of input.
    Eof,
    /// Anything else: declarations, comments, processing instructions.
    Other,
}

/// What to do with the event just read.
#[derive(Clone, Debug, PartialEq, Eq)]
pub enum FilterAction {
    /// Copy it to the output.
    Write,
    /// Append it to the held edge.
    Hold,
    /// Parse this weight text, report the outcome with `record_weight`, then
    /// append the event to the held edge.
    WeighThenHold(String),
    /// Append it to the held edge, which is now complete: write the held edge
    /// when the flag is set, drop it otherwise.
    Release(bool),
    /// The document is complete; stop reading.
    Finish,
}

/// Why a document cannot be filtered.
#[derive(Clone, Copy, Debug, PartialEq, Eq)]
pub enum FilterError {
    /// Markup inside an edge weight.
    WeightNotNumeric,
    /// The document is not a single `<graphml>` element.
    RootExpected,
    /// More than one `<graph>` element.
    NestedGraph,
    /// A weight key without an id.
    WeightKeyMissingId,
    /// An edge inside an edge.
    NestedEdge,
    /// An edge without an explicit weight value.
    MissingWeight,
    /// An edge without source or target.
    MissingEndpoint,
    /// A self-closing weight element.
    EmptyWeight,
    /// A second weight on one edge.
    DuplicateWeight,
    /// An entity reference inside an edge weight.
    EntityInWeight,
    /// An end tag with no open element.
    UnexpectedClose,
    /// The input ended inside the document or before it.
    Incomplete,
}

/// The edge being held back.
#[derive(Clone, Debug)]
pub struct HeldEdge {
    /// Whether the edge is kept, once its weight has been read.
    pub weight: Option<bool>,
    /// Inside the weight's data element.
    pub reading_weight: bool,
    /// Weight text read so far.
    pub weight_text: String,
}

/// Filter state between events.
#[derive(Clone, Debug)]
pub struct GraphmlFilter {
    pub stats: FilterStats,
    pub depth: usize,
    pub root_seen: bool,
    pub graph_seen: bool,
    /// Ids of the keys that hold edge weights.
    pub weight_keys: Vec<String>,
    pub edge: Option<HeldEdge>,
}

/// Value of the first attribute called `name`.
pub open spec fn attribute_value(attributes: Seq<(String, String)>, name: Seq<char>) -> Option<Seq<char>>
    decreases attributes.len(),
{
    if attributes.len() == 0 {
        None
    } else if attributes[0].0@ == name {
        Some(attributes[0].1@)
    } else {
        attribute_value(attributes.drop_first(), name)
    }
}

/// `key` is the id of a weight key.
pub open spec fn is_weight_key(keys: Seq<String>, key: Seq<char>) -> bool {
    exists|i: int| 0 <= i < keys.len() && (#[trigger] keys[i])@ == key
}

/// A weight key's declared scope lets it hold edge weights.
pub open spec fn edge_scope(scope: Option<Seq<char>>) -> bool {
    match scope {
        None => true,
        Some(s) => s == "edge"@ || s == "all"@,
    }
}

impl GraphmlFilter {
    /// The filter is inside a held edge's weight.
    pub open spec fn reading(&self) -> bool {
        self.edge matches Some(e) && e.reading_weight
    }

    /// Where an event goes when it decides nothing.
    pub open spec fn pass_on(&self) -> FilterAction {
        if self.edge is Some {
            FilterAction::Hold
        } else {
            FilterAction::Write
        }
    }

    /// Counters have room for one more event.
    pub open spec fn has_room(&self) -> bool {
        &&& self.depth < usize::MAX
        &&& self.stats.nodes < u64::MAX
        &&& self.stats.edges_read < u64::MAX
        &&& self.stats.edges_kept < u64::MAX
    }

    /// The state invariant: no more edges kept than read.
    pub open spec fn well_formed(&self) -> bool {
        self.stats.edges_kept <= self.stats.edges_read
    }

    /// A filter before the first event.
    pub fn new() -> (result: Self)
        ensures
            result.stats == (FilterStats { nodes: 0, edges_read: 0, edges_kept: 0 }),
            result.depth == 0,
            !result.root_seen,
            !result.graph_seen,
            result.weight_keys@.len() == 0,
            result.edge is None,
            result.well_formed(),
    {
        GraphmlFilter {
            stats: FilterStats { nodes: 0, edges_read: 0, edges_kept: 0 },
            depth: 0,
            root_seen: false,
            graph_seen: false,
            weight_keys: Vec::new(),
            edge: None,
        }
    }

    /// Whether a `<data>` element's attributes matter: only inside a held edge.
    pub fn reads_data_key(&self) -> (result: bool)
        ensures
            result == self.edge is Some,
    {
        self.edge.is_some()
    }

    /// Record the parsed weight of the held edge: whether it is kept.
    pub fn record_weight(&mut self, keep: bool)
        requires
            old(self).reading(),
        ensures
            final(self).edge == Some(HeldEdge {
                weight: Some(keep),
                reading_weight: false,
                weight_text: old(self).edge->Some_0.weight_text,
            }),
            final(self).stats == old(self).stats,
            final(self).depth == old(self).depth,
            final(self).root_seen == old(self).root_seen,
            final(self).graph_seen == old(self).graph_seen,
            final(self).weight_keys == old(self).weight_keys,
    {
        let held = self.edge.take();
        match held {
            Some(e) => {
                self.edge = Some(HeldEdge { weight: Some(keep), reading_weight: false, weight_text: e.weight_text });
            },
            None => {},
        }
    }
}

/// Value of the first attribute called `name`.
fn find_attribute(attributes: &Vec<(String, String)>, name: &str) -> (result: Option<String>)
    ensures
        match result {
            Some(v) => attribute_value(attributes@, name@) == Some(v@),
            None => attribute_value(attributes@, name@) is None,
        },
{
    let mut i: usize = 0;
    assert(attributes@.skip(0) =~= attributes@);
    while i < attributes.len()
        invariant
            i <= attributes@.len(),
            attribute_value(attributes@, name@) == attribute_value(attributes@.skip(i as int), name@),
        decreases attributes@.len() - i,
    {
        proof {
            assert(attributes@.skip(i as int)[0] == attributes@[i as int]);
            assert(attributes@.skip(i as int).drop_first() =~= attributes@.skip(i + 1));
        }
        if str_eq(attributes[i].0.as_str(), name) {
            return Some(attributes[i].1.clone());
        }
        i = i + 1;
    }
    proof {
        assert(attributes@.skip(i as int).len() == 0);
    }
    None
}

fn contains_key(keys: &Vec<String>, key: &String) -> (result: bool)
    ensures
        result == is_weight_key(keys@, key@),
{
    let mut i: usize = 0;
    while i < keys.len()
        invariant
            i <= keys@.len(),
            forall|j: int| 0 <= j < i ==> (#[trigger] keys@[j])@ != key@,
        decreases keys@.len() - i,
    {
        if keys[i] == *key {
            proof {
                assert((keys@[i as int])@ == key@);
            }
            return true;
        }
        i = i + 1;
    }
    false
}

/// Which rule a start tag falls under, tried in this order.
pub enum OpenRule {
    Graph,
    WeightKey,
    Node,
    Edge,
    Data,
    Plain,
}

pub open spec fn open_rule(name: Seq<char>, attributes: Seq<(String, String)>) -> OpenRule {
    if name == "graph"@ {
        OpenRule::Graph
    } else if name == "key"@ && attribute_value(attributes, "attr.name"@) == Some("weight"@) {
        OpenRule::WeightKey
    } else if name == "node"@ {
        OpenRule::Node
    } else if name == "edge"@ {
        OpenRule::Edge
    } else if name == "data"@ {
        OpenRule::Data
    } else {
        OpenRule::Plain
    }
}

/// A `<data>` start tag inside a held edge names a weight key.
pub open spec fn opens_weight(o: GraphmlFilter, attributes: Seq<(String, String)>) -> bool {
    &&& o.edge is Some
    &&& attribute_value(attributes, "key"@) matches Some(k) && is_weight_key(o.weight_keys@, k)
}

/// The error a start tag raises, if any.
pub open spec fn open_error(o: GraphmlFilter, name: Seq<char>, empty: bool, attributes: Seq<(String, String)>) -> Option<FilterError> {
    if o.reading() {
        Some(FilterError::WeightNotNumeric)
    } else if o.depth == 0 && (o.root_seen || name != "graphml"@) {
        Some(FilterError::RootExpected)
    } else {
        match open_rule(name, attributes) {
            OpenRule::Graph => if o.graph_seen { Some(FilterError::NestedGraph) } else { None },
            OpenRule::WeightKey => if edge_scope(attribute_value(attributes, "for"@))
                && attribute_value(attributes, "id"@) is None {
                Some(FilterError::WeightKeyMissingId)
            } else {
                None
            },
            OpenRule::Edge => if o.edge is Some {
                Some(FilterError::NestedEdge)
            } else if empty {
                Some(FilterError::MissingWeight)
            } else if attribute_value(attributes, "source"@) is None || attribute_value(attributes, "target"@) is None {
                Some(FilterError::MissingEndpoint)
            } else {
                None
            },
            OpenRule::Data => if opens_weight(o, attributes) {
                if empty {
                    Some(FilterError::EmptyWeight)
                } else if o.edge->Some_0.weight is Some || o.edge->Some_0.reading_weight {
                    Some(FilterError::DuplicateWeight)
                } else {
                    None
                }
            } else {
                None
            },
            _ => None,
        }
    }
}

/// The state after an accepted start tag.
pub open spec fn open_state(o: GraphmlFilter, f: GraphmlFilter, name: Seq<char>, empty: bool, attributes: Seq<(String, String)>) -> bool {
    let rule = open_rule(name, attributes);
    let adds_key = rule == OpenRule::WeightKey && edge_scope(attribute_value(attributes, "for"@));
    &&& f.depth == if empty { o.depth as int } else { o.depth + 1 }
    &&& f.root_seen == (o.root_seen || o.depth == 0)
    &&& f.graph_seen == (o.graph_seen || rule == OpenRule::Graph)
    &&& f.stats.nodes == o.stats.nodes + if rule == OpenRule::Node { 1int } else { 0int }
    &&& f.stats.edges_read == o.stats.edges_read
    &&& f.stats.edges_kept == o.stats.edges_kept
    &&& if adds_key {
        &&& f.weight_keys@.len() == o.weight_keys@.len() + 1
        &&& f.weight_keys@.drop_last() == o.weight_keys@
        &&& Some(f.weight_keys@.last()@) == attribute_value(attributes, "id"@)
    } else {
        f.weight_keys == o.weight_keys
    }
    &&& if rule == OpenRule::Edge {
        f.edge matches Some(e) && e.weight is None && !e.reading_weight && e.weight_text@.len() == 0
    } else if rule == OpenRule::Data && opens_weight(o, attributes) {
        f.edge matches Some(e) && e.weight == o.edge->Some_0.weight && e.reading_weight
            && e.weight_text@ == o.edge->Some_0.weight_text@
    } else {
        f.edge == o.edge
    }
}

/// The state and action after an accepted end tag.
pub open spec fn close_effect(o: GraphmlFilter, f: GraphmlFilter, name: Seq<char>, action: FilterAction) -> bool {
    &&& f.depth == o.depth - 1
    &&& f.root_seen == o.root_seen
    &&& f.graph_seen == o.graph_seen
    &&& f.weight_keys == o.weight_keys
    &&& f.stats.nodes == o.stats.nodes
    &&& if name == "data"@ && o.reading() {
        &&& action matches FilterAction::WeighThenHold(t) && t@ == o.edge->Some_0.weight_text@
        &&& f.edge == o.edge
        &&& f.stats == o.stats
    } else if o.edge is Some && name == "edge"@ {
        let keep = o.edge->Some_0.weight->Some_0;
        &&& action == FilterAction::Release(keep)
        &&& f.edge is None
        &&& f.stats.edges_read == o.stats.edges_read + 1
        &&& f.stats.edges_kept == o.stats.edges_kept + if keep { 1int } else { 0int }
    } else {
        &&& action == o.pass_on()
        &&& f.edge == o.edge
        &&& f.stats == o.stats
    }
}

/// What one event does: the filter's transition relation.
pub open spec fn step_spec(o: GraphmlFilter, f: GraphmlFilter, event: XmlEvent, result: Result<FilterAction, FilterError>) -> bool {
    match event {
        XmlEvent::Open { name, empty, attributes } => match open_error(o, name@, empty, attributes@) {
            Some(e) => result == Err::<FilterAction, FilterError>(e),
            None => open_state(o, f, name@, empty, attributes@) && result == Ok::<FilterAction, FilterError>(f.pass_on()),
        },
        XmlEvent::Text(t) => {
            &&& result == Ok::<FilterAction, FilterError>(o.pass_on())
            &&& if o.reading() {
                &&& f.edge matches Some(e) && e.weight == o.edge->Some_0.weight && e.reading_weight
                    && e.weight_text@ == o.edge->Some_0.weight_text@ + t@
                &&& f.stats == o.stats && f.depth == o.depth && f.root_seen == o.root_seen
                &&& f.graph_seen == o.graph_seen && f.weight_keys == o.weight_keys
            } else {
                f == o
            }
        },
        XmlEvent::EntityRef => if o.reading() {
            result == Err::<FilterAction, FilterError>(FilterError::EntityInWeight)
        } else {
            result == Ok::<FilterAction, FilterError>(o.pass_on()) && f == o
        },
        XmlEvent::Close(name) => if o.depth == 0 {
            result == Err::<FilterAction, FilterError>(FilterError::UnexpectedClose)
        } else if o.edge matches Some(e) && name@ == "edge"@ && !(name@ == "data"@ && o.reading()) && e.weight is None {
            result == Err::<FilterAction, FilterError>(FilterError::MissingWeight)
        } else {
            result matches Ok(a) && close_effect(o, f, name@, a)
        },
        XmlEvent::Eof => if o.depth == 0 && o.root_seen && o.graph_seen && o.edge is None {
            result == Ok::<FilterAction, FilterError>(FilterAction::Finish) && f == o
        } else {
            result == Err::<FilterAction, FilterError>(FilterError::Incomplete)
        },
        XmlEvent::Other => result == Ok::<FilterAction, FilterError>(o.pass_on()) && f == o,
    }
}

impl GraphmlFilter {
    fn pass_on_now(&self) -> (result: FilterAction)
        ensures
            result == self.pass_on(),
    {
        if self.edge.is_some() {
            FilterAction::Hold
        } else {
            FilterAction::Write
        }
    }

    fn is_reading(&self) -> (result: bool)
        ensures
            result == self.reading(),
    {
        match &self.edge {
            Some(e) => e.reading_weight,
            None => false,
        }
    }

    fn open(&mut self, name: &String, empty: bool, attributes: &Vec<(String, String)>) -> (result: Result<FilterAction, FilterError>)
        requires
            old(self).has_room(),
            old(self).well_formed(),
        ensures
            match open_error(*old(self), name@, empty, attributes@) {
                Some(e) => result == Err::<FilterAction, FilterError>(e),
                None => open_state(*old(self), *final(self), name@, empty, attributes@)
                    && result == Ok::<FilterAction, FilterError>(final(self).pass_on()),
            },
            final(self).well_formed(),
    {
        if self.is_reading() {
            return Err(FilterError::WeightNotNumeric);
        }
        if self.depth == 0 {
            if self.root_seen || !str_eq(name.as_str(), "graphml") {
                return Err(FilterError::RootExpected);
            }
            self.root_seen = true;
        }
        if str_eq(name.as_str(), "graph") {
            if self.graph_seen {
                return Err(FilterError::NestedGraph);
            }
            self.graph_seen = true;
        } else {
            let weight_key = if str_eq(name.as_str(), "key") {
                match find_attribute(attributes, "attr.name") {
                    Some(v) => str_eq(v.as_str(), "weight"),
                    None => false,
                }
            } else {
                false
            };
            if weight_key {
                let scope = find_attribute(attributes, "for");
                let in_scope = match &scope {
                    None => true,
                    Some(v) => str_eq(v.as_str(), "edge") || str_eq(v.as_str(), "all"),
                };
                if in_scope {
                    match find_attribute(attributes, "id") {
                        None => {
                            return Err(FilterError::WeightKeyMissingId);
                        },
                        Some(id) => {
                            let ghost keys_before = self.weight_keys@;
                            self.weight_keys.push(id);
                            assert(self.weight_keys@.drop_last() =~= keys_before);
                        },
                    }
                }
            } else if str_eq(name.as_str(), "node") {
                self.stats.nodes = self.stats.nodes + 1;
            } else if str_eq(name.as_str(), "edge") {
                if self.edge.is_some() {
                    return Err(FilterError::NestedEdge);
                }
                if empty {
                    return Err(FilterError::MissingWeight);
                }
                if find_attribute(attributes, "source").is_none() || find_attribute(attributes, "target").is_none() {
                    return Err(FilterError::MissingEndpoint);
                }
                self.edge = Some(HeldEdge { weight: None, reading_weight: false, weight_text: String::new() });
            } else if str_eq(name.as_str(), "data") {
                if self.edge.is_some() {
                    let named = match find_attribute(attributes, "key") {
                        Some(k) => contains_key(&self.weight_keys, &k),
                        None => false,
                    };
                    if named {
                        if empty {
                            return Err(FilterError::EmptyWeight);
                        }
                        let held = self.edge.take();
                        match held {
                            Some(e) => {
                                if e.weight.is_some() || e.reading_weight {
                                    return Err(FilterError::DuplicateWeight);
                                }
                                self.edge = Some(HeldEdge { weight: e.weight, reading_weight: true, weight_text: e.weight_text });
                            },
                            None => {},
                        }
                    }
                }
            }
        }
        if !empty {
            self.depth = self.depth + 1;
        }
        Ok(self.pass_on_now())
    }
}

impl GraphmlFilter {
    fn text(&mut self, text: &String)
        ensures
            if old(self).reading() {
                &&& final(self).edge matches Some(e) && e.weight == old(self).edge->Some_0.weight && e.reading_weight
                    && e.weight_text@ == old(self).edge->Some_0.weight_text@ + text@
                &&& final(self).stats == old(self).stats && final(self).depth == old(self).depth
                &&& final(self).root_seen == old(self).root_seen && final(self).graph_seen == old(self).graph_seen
                &&& final(self).weight_keys == old(self).weight_keys
            } else {
                *final(self) == *old(self)
            },
    {
        if self.is_reading() {
            let held = self.edge.take();
            match held {
                Some(e) => {
                    let mut collected = e.weight_text;
                    collected.append(text.as_str());
                    self.edge = Some(HeldEdge { weight: e.weight, reading_weight: e.reading_weight, weight_text: collected });
                },
                None => {},
            }
        }
    }

    fn close(&mut self, name: &String) -> (result: Result<FilterAction, FilterError>)
        requires
            old(self).has_room(),
            old(self).well_formed(),
        ensures
            if old(self).depth == 0 {
                result == Err::<FilterAction, FilterError>(FilterError::UnexpectedClose)
            } else if old(self).edge matches Some(e) && name@ == "edge"@ && !(name@ == "data"@ && old(self).reading())
                && e.weight is None {
                result == Err::<FilterAction, FilterError>(FilterError::MissingWeight)
            } else {
                result matches Ok(a) && close_effect(*old(self), *final(self), name@, a)
            },
            final(self).well_formed(),
    {
        if self.depth == 0 {
            return Err(FilterError::UnexpectedClose);
        }
        self.depth = self.depth - 1;
        if str_eq(name.as_str(), "data") && self.is_reading() {
            let text = match &self.edge {
                Some(e) => e.weight_text.clone(),
                None => String::new(),
            };
            return Ok(FilterAction::WeighThenHold(text));
        }
        if self.edge.is_some() {
            if str_eq(name.as_str(), "edge") {
                let held = self.edge.take();
                match held {
                    Some(e) => match e.weight {
                        None => {
                            return Err(FilterError::MissingWeight);
                        },
                        Some(keep) => {
                            self.stats.edges_read = self.stats.edges_read + 1;
                            if keep {
                                self.stats.edges_kept = self.stats.edges_kept + 1;
                            }
                            return Ok(FilterAction::Release(keep));
                        },
                    },
                    None => {
                        return Ok(FilterAction::Hold);
                    },
                }
            }
            Ok(FilterAction::Hold)
        } else {
            Ok(FilterAction::Write)
        }
    }

    /// Decide what happens to the next event.
    pub fn step(&mut self, event: &XmlEvent) -> (result: Result<FilterAction, FilterError>)
        requires
            old(self).has_room(),
            old(self).well_formed(),
        ensures
            step_spec(*old(self), *final(self), *event, result),
            final(self).well_formed(),
    {
        match event {
            XmlEvent::Open { name, empty, attributes } => self.open(name, *empty, attributes),
            XmlEvent::Text(t) => {
                let action = self.pass_on_now();
                self.text(t);
                Ok(action)
            },
            XmlEvent::EntityRef => {
                if self.is_reading() {
                    Err(FilterError::EntityInWeight)
                } else {
                    Ok(self.pass_on_now())
                }
            },
            XmlEvent::Close(name) => self.close(name),
            XmlEvent::Eof => {
                if self.depth == 0 && self.root_seen && self.graph_seen && self.edge.is_none() {
                    Ok(FilterAction::Finish)
                } else {
                    Err(FilterError::Incomplete)
                }
            },
            XmlEvent::Other => Ok(self.pass_on_now()),
        }
    }
}

/// Outside a held edge nothing is dropped: every accepted event other than
/// an edge's start tag and the end of input is copied to the output, so every
/// node and all graph metadata pass through.
pub proof fn law_outside_edges_events_pass(o: GraphmlFilter, f: GraphmlFilter, event: XmlEvent, result: Result<FilterAction, FilterError>)
    requires
        step_spec(o, f, event, result),
        o.edge is None,
        result is Ok,
        !(event matches XmlEvent::Open { name, .. } && open_rule(name@, event->attributes@) == OpenRule::Edge),
        !(event is Eof),
    ensures
        result == Ok::<FilterAction, FilterError>(FilterAction::Write),
{
}

/// Inside a held edge nothing goes straight to the output: every accepted
/// event is held with the edge, or is the edge's end tag that releases it.
pub proof fn law_inside_edges_events_held(o: GraphmlFilter, f: GraphmlFilter, event: XmlEvent, result: Result<FilterAction, FilterError>)
    requires
        step_spec(o, f, event, result),
        o.edge is Some,
        result is Ok,
    ensures
        result matches Ok(a) && (a == FilterAction::Hold || a is WeighThenHold || a is Release),
{
}

/// A `<key attr.name="weight">` with an id inside the document declares a
/// weight key when it applies to edges: declared `for="edge"`, `for="all"`, or
/// with no `for` at all. Its id is then a weight key, so a `<data>` element
/// naming it inside an edge is read as that edge's weight.
pub proof fn law_weight_key_for_edges(
    o: GraphmlFilter,
    f: GraphmlFilter,
    name: String,
    empty: bool,
    attributes: Vec<(String, String)>,
    id: Seq<char>,
    result: Result<FilterAction, FilterError>,
)
    requires
        step_spec(o, f, XmlEvent::Open { name, empty, attributes }, result),
        name@ == "key"@,
        !o.reading(),
        o.depth > 0,
        attribute_value(attributes@, "attr.name"@) == Some("weight"@),
        attribute_value(attributes@, "id"@) == Some(id),
        attribute_value(attributes@, "for"@) == Some("all"@) || attribute_value(attributes@, "for"@) == Some("edge"@)
            || attribute_value(attributes@, "for"@) is None,
    ensures
        result is Ok,
        f.weight_keys@.len() == o.weight_keys@.len() + 1,
        f.weight_keys@.drop_last() == o.weight_keys@,
        f.weight_keys@.last()@ == id,
        is_weight_key(f.weight_keys@, id),
{
    reveal_strlit("key");
    reveal_strlit("graph");
    reveal_strlit("edge");
    reveal_strlit("all");
    assert("key"@.len() == 3 && "graph"@.len() == 5);
    assert(open_rule(name@, attributes@) == OpenRule::WeightKey);
    assert(edge_scope(attribute_value(attributes@, "for"@)));
    assert(open_error(o, name@, empty, attributes@) is None);
    assert(Some(f.weight_keys@.last()@) == attribute_value(attributes@, "id"@));
}

/// A weight key declared for nodes only (`for="node"`) declares no edge
/// weight: the weight keys stay as they were.
pub proof fn law_node_weight_key_ignored(
    o: GraphmlFilter,
    f: GraphmlFilter,
    name: String,
    empty: bool,
    attributes: Vec<(String, String)>,
    result: Result<FilterAction, FilterError>,
)
    requires
        step_spec(o, f, XmlEvent::Open { name, empty, attributes }, result),
        name@ == "key"@,
        !o.reading(),
        o.depth > 0,
        attribute_value(attributes@, "attr.name"@) == Some("weight"@),
        attribute_value(attributes@, "for"@) == Some("node"@),
    ensures
        result is Ok,
        f.weight_keys == o.weight_keys,
{
    reveal_strlit("key");
    reveal_strlit("graph");
    reveal_strlit("node");
    reveal_strlit("edge");
    reveal_strlit("all");
    assert("key"@.len() == 3 && "graph"@.len() == 5);
    assert("all"@.len() == 3);
    assert("node"@[0] == 'n' && "edge"@[0] == 'e');
    assert(open_rule(name@, attributes@) == OpenRule::WeightKey);
    assert(!edge_scope(attribute_value(attributes@, "for"@)));
    assert(open_error(o, name@, empty, attributes@) is None);
}

/// Once `id` is a weight key, a `<data key=id>` start tag inside a held edge
/// that has no weight yet opens that edge's weight: the filter holds it and
/// reads the text that follows as the weight.
pub proof fn law_weight_data_read(
    o: GraphmlFilter,
    f: GraphmlFilter,
    name: String,
    attributes: Vec<(String, String)>,
    id: Seq<char>,
    result: Result<FilterAction, FilterError>,
)
    requires
        step_spec(o, f, XmlEvent::Open { name, empty: false, attributes }, result),
        name@ == "data"@,
        o.depth > 0,
        o.edge matches Some(e) && e.weight is None && !e.reading_weight,
        is_weight_key(o.weight_keys@, id),
        attribute_value(attributes@, "key"@) == Some(id),
    ensures
        result == Ok::<FilterAction, FilterError>(FilterAction::Hold),
        f.reading(),
        f.edge->Some_0.weight is None,
{
    reveal_strlit("data");
    reveal_strlit("graph");
    reveal_strlit("key");
    reveal_strlit("node");
    reveal_strlit("edge");
    assert("data"@.len() == 4 && "graph"@.len() == 5 && "key"@.len() == 3);
    assert("data"@[0] == 'd' && "node"@[0] == 'n' && "edge"@[0] == 'e');
    assert(open_rule(name@, attributes@) == OpenRule::Data);
    assert(opens_weight(o, attributes@));
    assert(open_error(o, name@, false, attributes@) is None);
}

/// Edges are only ever dropped whole: an edge's events are held until its end
/// tag, which releases the edge and counts it as read, and as kept exactly
/// when its weight met the threshold.
pub proof fn law_edge_release_counts(o: GraphmlFilter, f: GraphmlFilter, name: String, result: Result<FilterAction, FilterError>)
    requires
        step_spec(o, f, XmlEvent::Close(name), result),
        o.edge matches Some(e) && e.weight is Some,
        name@ == "edge"@,
        !o.reading(),
        o.depth > 0,
    ensures
        result == Ok::<FilterAction, FilterError>(FilterAction::Release(o.edge->Some_0.weight->Some_0)),
        f.edge is None,
        f.stats.edges_read == o.stats.edges_read + 1,
        f.stats.edges_kept == o.stats.edges_kept + if o.edge->Some_0.weight->Some_0 { 1int } else { 0int },
{
}

} // verus!
