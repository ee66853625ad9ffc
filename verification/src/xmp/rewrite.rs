//! Rewriting the fields of a document by rules.
//!
//! A document holds its fields in description elements. Top-level
//! description elements that follow one another are read as one: their
//! attributes and namespace bindings are put on the first one's start, and
//! the boundaries between them are left out. A rule is applied once: to an
//! attribute of the merged start, where the rule allows that and there is
//! one; else to the first child of the description that is an element of
//! its field, which is replaced; else, where the rule is required, behind
//! the last child of the description. Elements further down are never
//! replaced.

use vstd::prelude::*;
use xml::namespace::Namespace;

use crate::markup::{
    attributes_view, clone_attributes, events_view, merge_bindings, namespace_bindings,
    namespace_empty, namespace_extend, namespace_put, no_bindings, put_binding, Attribute,
    AttributeView, MarkupEvent, MarkupEventView, QName, QNameView,
};
use crate::xmp::rule::{
    is_timestamp, rules_view, RewriteRule, RuleView, SetToCurrentDateTime,
};
use crate::xmp::{is_description, XmpData};

verus! {

/// Why a document could not be rewritten.
#[derive(Debug, PartialEq, Eq)]
pub enum WriteError {
    /// The rule for the attribute or element of this name could not be run.
    RuleFailed(QName),
}

/// What is gathered from the starts of the top-level description elements
/// of a document.
pub struct Gathered {
    /// How many description elements are open.
    pub level: int,
    /// The attributes of the top-level description elements, in order.
    pub attributes: Seq<AttributeView>,
    /// Their namespace bindings; of two bindings of a prefix the first
    /// counts.
    pub bindings: Map<Seq<char>, Seq<char>>,
}

/// Nothing gathered yet.
pub open spec fn nothing_gathered() -> Gathered {
    Gathered { level: 0, attributes: Seq::empty(), bindings: no_bindings() }
}

/// What is gathered behind one more event.
pub open spec fn gather_step(gathered: Gathered, event: MarkupEventView) -> Gathered {
    match event {
        MarkupEventView::StartElement { name, attributes, namespace } => if is_description(name) {
            if gathered.level == 0 {
                Gathered {
                    level: 1,
                    attributes: gathered.attributes + attributes,
                    bindings: merge_bindings(gathered.bindings, namespace),
                }
            } else {
                Gathered { level: gathered.level + 1, ..gathered }
            }
        } else {
            gathered
        },
        MarkupEventView::EndElement { name } => if is_description(name) && gathered.level > 0 {
            Gathered { level: gathered.level - 1, ..gathered }
        } else {
            gathered
        },
        _ => gathered,
    }
}

/// What is gathered from the first `n` events.
pub open spec fn gathered_from(events: Seq<MarkupEventView>, n: nat) -> Gathered
    decreases n,
{
    if n == 0 {
        nothing_gathered()
    } else {
        gather_step(gathered_from(events, (n - 1) as nat), events[n - 1])
    }
}

/// `bindings` with the prefix of a rule bound to the rule's namespace,
/// unless the prefix is bound already or the rule has no namespace.
pub open spec fn register(bindings: Map<Seq<char>, Seq<char>>, rule: RuleView) -> Map<
    Seq<char>,
    Seq<char>,
> {
    match rule.namespace {
        Some(namespace) => put_binding(bindings, rule.prefix, namespace),
        None => bindings,
    }
}

/// The index of the first attribute at or after `from` that a rule is for,
/// or the number of attributes where it is for none.
pub open spec fn first_match(attributes: Seq<AttributeView>, rule: RuleView, from: int) -> int
    decreases attributes.len() - from,
{
    if from < 0 || from >= attributes.len() {
        attributes.len() as int
    } else if rule.matches(attributes[from].name) {
        from
    } else {
        first_match(attributes, rule, from + 1)
    }
}

/// The merged start of the description while the rules are tried on its
/// attributes.
pub struct AttributePass {
    pub attributes: Seq<AttributeView>,
    pub bindings: Map<Seq<char>, Seq<char>>,
    /// The rules that were not applied to an attribute.
    pub left: Seq<RuleView>,
    /// The name of the attribute whose rule could not be run.
    pub failed: Option<QNameView>,
}

/// The merged start behind one more rule. A rule that allows it is applied
/// to the first attribute of its field: the attribute gets the value that
/// the rule's action gives, and the rule's prefix is registered. Any other
/// rule is left for the elements. Behind a rule that failed nothing is done.
pub open spec fn attribute_step(pass: AttributePass, rule: RuleView, stamp: Seq<char>) -> AttributePass {
    let at = first_match(pass.attributes, rule, 0);
    if pass.failed.is_some() {
        pass
    } else if rule.allow_attribute && at < pass.attributes.len() {
        match rule.run_attribute(stamp) {
            Ok(value) => AttributePass {
                attributes: pass.attributes.update(
                    at,
                    AttributeView { name: pass.attributes[at].name, value },
                ),
                bindings: register(pass.bindings, rule),
                ..pass
            },
            Err(_) => AttributePass { failed: Some(pass.attributes[at].name), ..pass },
        }
    } else {
        AttributePass { left: pass.left.push(rule), ..pass }
    }
}

/// The merged start behind the first `n` rules.
pub open spec fn attribute_pass(
    start: AttributePass,
    rules: Seq<RuleView>,
    stamp: Seq<char>,
    n: nat,
) -> AttributePass
    decreases n,
{
    if n == 0 {
        start
    } else {
        attribute_step(attribute_pass(start, rules, stamp, (n - 1) as nat), rules[n - 1], stamp)
    }
}

/// The index of the first rule at or after `from` that is for the field of
/// this name, or the number of rules where none is.
pub open spec fn field_index(rules: Seq<RuleView>, name: QNameView, from: int) -> int
    decreases rules.len() - from,
{
    if from < 0 || from >= rules.len() {
        rules.len() as int
    } else if rules[from].matches(name) {
        from
    } else {
        field_index(rules, name, from + 1)
    }
}

/// Those of the first `n` rules that no later rule is for the same field
/// as: of the rules for one field only the last is applied.
pub open spec fn active_rules(rules: Seq<RuleView>, n: nat) -> Seq<RuleView>
    decreases n,
{
    if n == 0 {
        Seq::empty()
    } else if field_index(rules, rules[n - 1].name(), n as int) < rules.len() {
        active_rules(rules, (n - 1) as nat)
    } else {
        active_rules(rules, (n - 1) as nat).push(rules[n - 1])
    }
}

/// What those of the first `n` rules that are required write where their
/// fields are missing, in the order of the rules.
pub open spec fn flushed(rules: Seq<RuleView>, stamp: Seq<char>, n: nat) -> Seq<MarkupEventView>
    decreases n,
{
    if n == 0 {
        Seq::empty()
    } else if rules[n - 1].required {
        flushed(rules, stamp, (n - 1) as nat) + rules[n - 1].run(Seq::empty(), stamp)
    } else {
        flushed(rules, stamp, (n - 1) as nat)
    }
}

/// `bindings` with the prefixes registered of those of the first `n` rules
/// that are required.
pub open spec fn flushed_bindings(
    bindings: Map<Seq<char>, Seq<char>>,
    rules: Seq<RuleView>,
    n: nat,
) -> Map<Seq<char>, Seq<char>>
    decreases n,
{
    if n == 0 {
        bindings
    } else if rules[n - 1].required {
        register(flushed_bindings(bindings, rules, (n - 1) as nat), rules[n - 1])
    } else {
        flushed_bindings(bindings, rules, (n - 1) as nat)
    }
}

/// Where in a document the pass over its events is.
#[allow(inconsistent_fields)]
pub enum Phase {
    /// No description element was seen yet.
    Before,
    /// Inside the description, `level` elements deep, the description
    /// counted in: at level 1 the children of the description are read.
    Inside { level: int },
    /// Inside an element of the description that a rule has replaced, `depth`
    /// elements deep: what is read is left out.
    Replacing { depth: int },
    /// Behind the end of the description, which is held back.
    Closing { pending: MarkupEventView },
    /// Behind the description.
    After,
}

/// What a pass over the events of a document has written and still knows.
pub struct PassState {
    /// What was written before the description.
    pub before: Seq<MarkupEventView>,
    /// The name of the description, once its start was seen.
    pub opened: Option<QNameView>,
    /// The namespace bindings of the description's start.
    pub bindings: Map<Seq<char>, Seq<char>>,
    /// What was written behind the description's start.
    pub after: Seq<MarkupEventView>,
    pub phase: Phase,
    /// The rules that were not applied yet.
    pub rules: Seq<RuleView>,
}

/// The state in which a pass starts.
pub open spec fn pass_start(bindings: Map<Seq<char>, Seq<char>>, rules: Seq<RuleView>) -> PassState {
    PassState {
        before: Seq::empty(),
        opened: None,
        bindings,
        after: Seq::empty(),
        phase: Phase::Before,
        rules,
    }
}

/// The state behind an event that is read before the description: the start
/// of the document is left out, the start of a description opens the
/// description, and anything else is written as it is.
pub open spec fn step_before(state: PassState, event: MarkupEventView) -> PassState {
    match event {
        MarkupEventView::StartElement { name, .. } => if is_description(name) {
            PassState { opened: Some(name), phase: Phase::Inside { level: 1 }, ..state }
        } else {
            PassState { before: state.before.push(event), ..state }
        },
        MarkupEventView::StartDocument { .. } => state,
        _ => PassState { before: state.before.push(event), ..state },
    }
}

/// The state behind an event that is read inside the description. The end
/// of the description itself, which is read at level 1, is held back. The
/// start of a child of the description that a rule is for is replaced by
/// what the rule writes; the rule's prefix is registered and the rule is
/// done with. Anything else is written as it is: a nested description, an
/// element that no rule is for, and all that lies inside a child.
pub open spec fn step_inside(
    state: PassState,
    level: int,
    event: MarkupEventView,
    stamp: Seq<char>,
) -> PassState {
    match event {
        MarkupEventView::EndElement { name } => if level <= 1 {
            if is_description(name) {
                PassState { phase: Phase::Closing { pending: event }, ..state }
            } else {
                PassState { after: state.after.push(event), ..state }
            }
        } else {
            PassState {
                phase: Phase::Inside { level: level - 1 },
                after: state.after.push(event),
                ..state
            }
        },
        MarkupEventView::StartElement { name, .. } => if is_description(name) {
            PassState {
                phase: Phase::Inside { level: level + 1 },
                after: state.after.push(event),
                ..state
            }
        } else if level == 1 && field_index(state.rules, name, 0) < state.rules.len() {
            let at = field_index(state.rules, name, 0);
            PassState {
                phase: Phase::Replacing { depth: 1 },
                after: state.after + state.rules[at].run(seq![event], stamp),
                bindings: register(state.bindings, state.rules[at]),
                rules: state.rules.remove(at),
                ..state
            }
        } else {
            PassState {
                phase: Phase::Inside { level: level + 1 },
                after: state.after.push(event),
                ..state
            }
        },
        _ => PassState { after: state.after.push(event), ..state },
    }
}

/// The state behind an event that is read inside a replaced element:
/// nothing is written, and the element ends where its depth is used up.
pub open spec fn step_replacing(state: PassState, depth: int, event: MarkupEventView) -> PassState {
    let behind = crate::xmp::depth_behind(event, depth);
    if behind <= 0 {
        PassState { phase: Phase::Inside { level: 1 }, ..state }
    } else {
        PassState { phase: Phase::Replacing { depth: behind }, ..state }
    }
}

/// The state behind an event that is read while the end of the description
/// is held back. The start of another description goes on with the same
/// description: neither the end nor the start is written. Anything else
/// closes the description: the required rules that are left write their
/// fields, then the end is written, then the event.
pub open spec fn step_closing(
    state: PassState,
    pending: MarkupEventView,
    event: MarkupEventView,
    stamp: Seq<char>,
) -> PassState {
    if event matches MarkupEventView::StartElement { name, .. } && is_description(name) {
        PassState { phase: Phase::Inside { level: 1 }, ..state }
    } else {
        PassState {
            phase: Phase::After,
            after: state.after + flushed(state.rules, stamp, state.rules.len()) + seq![
                pending,
                event,
            ],
            bindings: flushed_bindings(state.bindings, state.rules, state.rules.len()),
            rules: Seq::empty(),
            ..state
        }
    }
}

/// The state behind one more event.
pub open spec fn pass_step(state: PassState, event: MarkupEventView, stamp: Seq<char>) -> PassState {
    match state.phase {
        Phase::Before => step_before(state, event),
        Phase::Inside { level } => step_inside(state, level, event, stamp),
        Phase::Replacing { depth } => step_replacing(state, depth, event),
        Phase::Closing { pending } => step_closing(state, pending, event, stamp),
        Phase::After => PassState { after: state.after.push(event), ..state },
    }
}

/// The state behind the first `n` events.
pub open spec fn pass_state(
    start: PassState,
    events: Seq<MarkupEventView>,
    stamp: Seq<char>,
    n: nat,
) -> PassState
    decreases n,
{
    if n == 0 {
        start
    } else {
        pass_step(pass_state(start, events, stamp, (n - 1) as nat), events[n - 1], stamp)
    }
}

/// The events that a pass has written: the description's start stands
/// between what was written before it and what was written behind it.
pub open spec fn assembled(state: PassState, attributes: Seq<AttributeView>) -> Seq<
    MarkupEventView,
> {
    match state.opened {
        Some(name) => state.before + seq![
            MarkupEventView::StartElement { name, attributes, namespace: state.bindings },
        ] + state.after,
        None => state.before,
    }
}

/// The merged start of the description of `events`, behind all the rules.
pub open spec fn merged_start(
    events: Seq<MarkupEventView>,
    rules: Seq<RuleView>,
    stamp: Seq<char>,
) -> AttributePass {
    let gathered = gathered_from(events, events.len());
    attribute_pass(
        AttributePass {
            attributes: gathered.attributes,
            bindings: gathered.bindings,
            left: Seq::empty(),
            failed: None,
        },
        rules,
        stamp,
        rules.len(),
    )
}

/// The state in which the pass over `events` ends.
pub open spec fn final_state(
    events: Seq<MarkupEventView>,
    rules: Seq<RuleView>,
    stamp: Seq<char>,
) -> PassState {
    let start = merged_start(events, rules, stamp);
    pass_state(
        pass_start(start.bindings, active_rules(start.left, start.left.len())),
        events,
        stamp,
        events.len(),
    )
}

/// The document that the rules make of `events` at the time `stamp`, or the
/// name of the attribute whose rule could not be run.
pub open spec fn rewritten(events: Seq<MarkupEventView>, rules: Seq<RuleView>, stamp: Seq<char>) -> Result<
    Seq<MarkupEventView>,
    QNameView,
> {
    let start = merged_start(events, rules, stamp);
    match start.failed {
        Some(name) => Err(name),
        None => Ok(assembled(final_state(events, rules, stamp), start.attributes)),
    }
}

/// Whether a result is what rewriting a document by rules at the time
/// `stamp` comes to: the rewritten document, or the failure of the rule for
/// an attribute.
pub open spec fn is_rewriting(
    r: Result<Vec<MarkupEvent>, WriteError>,
    events: Seq<MarkupEventView>,
    rules: Seq<RuleView>,
    stamp: Seq<char>,
) -> bool {
    match r {
        Ok(written) => rewritten(events, rules, stamp) == Ok::<Seq<MarkupEventView>, QNameView>(
            events_view(written@),
        ),
        Err(WriteError::RuleFailed(name)) => rewritten(events, rules, stamp) == Err::<
            Seq<MarkupEventView>,
            QNameView,
        >(name@),
    }
}

/// Whether the name of an element is that of the description element.
pub fn names_description(name: &QName) -> (r: bool)
    ensures
        r == is_description(name@),
{
    name.is(Some(crate::ns::RDF), "Description")
}

/// Registers the prefix of a rule.
fn register_rule(bindings: &mut Namespace, rule: &RewriteRule)
    ensures
        namespace_bindings(*final(bindings)) == register(namespace_bindings(*old(bindings)), rule@),
{
    match rule.namespace() {
        Some(namespace) => {
            namespace_put(bindings, rule.prefix(), namespace);
        },
        None => {},
    }
}

/// The index of the first rule that is for the field of this name.
fn find_rule(rules: &Vec<RewriteRule>, name: &QName, from: usize) -> (r: usize)
    requires
        from <= rules@.len(),
    ensures
        r == field_index(rules_view(rules@), name@, from as int),
        from <= r <= rules@.len(),
{
    let mut i: usize = from;
    while i < rules.len()
        invariant
            from <= i <= rules@.len(),
            field_index(rules_view(rules@), name@, i as int) == field_index(
                rules_view(rules@),
                name@,
                from as int,
            ),
        decreases rules@.len() - i,
    {
        if rules[i].matches(name) {
            return i;
        }
        i += 1;
    }
    i
}

/// Gathers the attributes and the namespace bindings of the top-level
/// description elements.
fn gather(events: &Vec<MarkupEvent>) -> (r: (Vec<Attribute>, Namespace))
    ensures
        attributes_view(r.0@) == gathered_from(events_view(events@), events@.len()).attributes,
        namespace_bindings(r.1) == gathered_from(events_view(events@), events@.len()).bindings,
{
    let mut attributes: Vec<Attribute> = Vec::new();
    let mut bindings = namespace_empty();
    let mut level: usize = 0;
    let mut i: usize = 0;
    assert(attributes_view(attributes@) =~= Seq::<AttributeView>::empty());
    while i < events.len()
        invariant
            i <= events@.len(),
            level <= i,
            level == gathered_from(events_view(events@), i as nat).level,
            attributes_view(attributes@) == gathered_from(events_view(events@), i as nat).attributes,
            namespace_bindings(bindings) == gathered_from(events_view(events@), i as nat).bindings,
        decreases events@.len() - i,
    {
        match &events[i] {
            MarkupEvent::StartElement { name, attributes: own, namespace } => {
                if names_description(name) {
                    if level == 0 {
                        let ghost before = attributes_view(attributes@);
                        let mut copies = clone_attributes(own);
                        attributes.append(&mut copies);
                        assert(attributes_view(attributes@) =~= before + attributes_view(own@));
                        namespace_extend(&mut bindings, namespace);
                    }
                    level += 1;
                }
            },
            MarkupEvent::EndElement { name } => {
                if names_description(name) && level > 0 {
                    level -= 1;
                }
            },
            _ => {},
        }
        i += 1;
    }
    (attributes, bindings)
}

/// The index of the first attribute that a rule is for.
fn find_match(attributes: &Vec<Attribute>, rule: &RewriteRule) -> (r: usize)
    ensures
        r == first_match(attributes_view(attributes@), rule@, 0),
        r <= attributes@.len(),
{
    let mut i: usize = 0;
    while i < attributes.len()
        invariant
            i <= attributes@.len(),
            first_match(attributes_view(attributes@), rule@, i as int) == first_match(
                attributes_view(attributes@),
                rule@,
                0,
            ),
        decreases attributes@.len() - i,
    {
        if rule.matches(&attributes[i].name) {
            return i;
        }
        i += 1;
    }
    i
}

/// Keeps of the rules for one field the last.
fn retain_active(rules: &Vec<RewriteRule>) -> (r: Vec<RewriteRule>)
    ensures
        rules_view(r@) == active_rules(rules_view(rules@), rules@.len()),
{
    let mut active: Vec<RewriteRule> = Vec::new();
    let mut i: usize = 0;
    assert(rules_view(active@) =~= Seq::<RuleView>::empty());
    while i < rules.len()
        invariant
            i <= rules@.len(),
            rules_view(active@) == active_rules(rules_view(rules@), i as nat),
        decreases rules@.len() - i,
    {
        let name = rules[i].name();
        let later = find_rule(rules, &name, i + 1);
        if later >= rules.len() {
            let ghost before = rules_view(active@);
            active.push(rules[i].duplicate());
            assert(rules_view(active@) =~= before.push(rules@[i as int]@));
        }
        i += 1;
    }
    active
}

/// Where a pass is.
#[derive(Clone, Copy)]
enum Stage {
    Before,
    Inside(usize),
    Replacing(usize),
    Closing,
    After,
}

/// A pass over the events of a document.
struct Pass {
    before: Vec<MarkupEvent>,
    opened: Option<QName>,
    bindings: Namespace,
    after: Vec<MarkupEvent>,
    stage: Stage,
    /// The end of the description, while it is held back.
    pending: Option<MarkupEvent>,
    rules: Vec<RewriteRule>,
    /// How many events were read.
    steps: usize,
}

impl View for Pass {
    type V = PassState;

    closed spec fn view(&self) -> PassState {
        PassState {
            before: events_view(self.before@),
            opened: match self.opened {
                Some(name) => Some(name@),
                None => None,
            },
            bindings: namespace_bindings(self.bindings),
            after: events_view(self.after@),
            phase: match self.stage {
                Stage::Before => Phase::Before,
                Stage::Inside(level) => Phase::Inside { level: level as int },
                Stage::Replacing(depth) => Phase::Replacing { depth: depth as int },
                Stage::Closing => match self.pending {
                    Some(pending) => Phase::Closing { pending: pending@ },
                    None => Phase::After,
                },
                Stage::After => Phase::After,
            },
            rules: rules_view(self.rules@),
        }
    }
}

/// Appends copies of events to a list.
fn append_events(target: &mut Vec<MarkupEvent>, mut events: Vec<MarkupEvent>)
    ensures
        events_view(final(target)@) == events_view(old(target)@) + events_view(events@),
{
    let ghost before = events_view(target@);
    let ghost added = events_view(events@);
    target.append(&mut events);
    assert(events_view(target@) =~= before + added);
}

/// Appends a copy of an event to a list.
fn push_copy(target: &mut Vec<MarkupEvent>, event: &MarkupEvent)
    ensures
        events_view(final(target)@) == events_view(old(target)@).push(event@),
{
    let ghost before = events_view(target@);
    target.push(event.duplicate());
    assert(events_view(target@) =~= before.push(event@));
}

impl Pass {
    /// Whether the counters of the pass are within the number of events
    /// that were read.
    spec fn bounded(self) -> bool {
        match self.stage {
            Stage::Inside(level) => 1 <= level <= self.steps,
            Stage::Replacing(depth) => 1 <= depth <= self.steps,
            Stage::Closing => self.pending.is_some(),
            _ => true,
        }
    }

    /// A pass that has read nothing.
    fn new(bindings: Namespace, rules: Vec<RewriteRule>) -> (r: Pass)
        ensures
            r@ == pass_start(namespace_bindings(bindings), rules_view(rules@)),
            r.steps == 0,
            r.bounded(),
    {
        let pass = Pass {
            before: Vec::new(),
            opened: None,
            bindings,
            after: Vec::new(),
            stage: Stage::Before,
            pending: None,
            rules,
            steps: 0,
        };
        assert(events_view(pass.before@) =~= Seq::<MarkupEventView>::empty());
        assert(events_view(pass.after@) =~= Seq::<MarkupEventView>::empty());
        pass
    }

    /// Writes what the required rules that are left write, and registers
    /// their prefixes.
    fn flush(&mut self, stamp: &str) -> (r: Result<(), WriteError>)
        ensures
            r is Ok,
            final(self)@ == (PassState {
                after: old(self)@.after + flushed(old(self)@.rules, stamp@, old(self)@.rules.len()),
                bindings: flushed_bindings(
                    old(self)@.bindings,
                    old(self)@.rules,
                    old(self)@.rules.len(),
                ),
                ..old(self)@
            }),
            final(self).steps == old(self).steps,
            final(self).stage == old(self).stage,
            final(self).pending == old(self).pending,
    {
        let mut i: usize = 0;
        assert(old(self)@.after + flushed(old(self)@.rules, stamp@, 0) =~= old(self)@.after);
        while i < self.rules.len()
            invariant
                i <= self.rules@.len(),
                self.rules == old(self).rules,
                self.before == old(self).before,
                self.opened == old(self).opened,
                self.stage == old(self).stage,
                self.pending == old(self).pending,
                self.steps == old(self).steps,
                events_view(self.after@) == old(self)@.after + flushed(
                    old(self)@.rules,
                    stamp@,
                    i as nat,
                ),
                namespace_bindings(self.bindings) == flushed_bindings(
                    old(self)@.bindings,
                    old(self)@.rules,
                    i as nat,
                ),
            decreases self.rules@.len() - i,
        {
            if self.rules[i].required() {
                register_rule(&mut self.bindings, &self.rules[i]);
                let input: Vec<MarkupEvent> = Vec::new();
                assert(events_view(input@) =~= Seq::<MarkupEventView>::empty());
                match self.rules[i].run_at(input.as_slice(), stamp) {
                    Ok(written) => {
                        append_events(&mut self.after, written);
                        assert(events_view(self.after@) =~= old(self)@.after + flushed(
                            old(self)@.rules,
                            stamp@,
                            (i + 1) as nat,
                        ));
                    },
                    Err(_) => {
                        return Err(WriteError::RuleFailed(self.rules[i].name()));
                    },
                }
            }
            i += 1;
        }
        Ok(())
    }

    /// Reads one more event.
    fn step(&mut self, event: &MarkupEvent, stamp: &str) -> (r: Result<(), WriteError>)
        requires
            old(self).bounded(),
            old(self).steps < usize::MAX,
        ensures
            r is Ok,
            final(self)@ == pass_step(old(self)@, event@, stamp@),
            final(self).steps == old(self).steps + 1,
            final(self).bounded(),
    {
        self.steps = self.steps + 1;
        let stage = self.stage;
        match stage {
            Stage::Before => {
                match event {
                    MarkupEvent::StartElement { name, .. } => {
                        if names_description(name) {
                            self.opened = Some(name.duplicate());
                            self.stage = Stage::Inside(1);
                        } else {
                            push_copy(&mut self.before, event);
                        }
                    },
                    MarkupEvent::StartDocument { .. } => {},
                    _ => {
                        push_copy(&mut self.before, event);
                    },
                }
            },
            Stage::Inside(level) => {
                match event {
                    MarkupEvent::EndElement { name } => {
                        if level <= 1 {
                            if names_description(name) {
                                self.pending = Some(event.duplicate());
                                self.stage = Stage::Closing;
                            } else {
                                push_copy(&mut self.after, event);
                            }
                        } else {
                            self.stage = Stage::Inside(level - 1);
                            push_copy(&mut self.after, event);
                        }
                    },
                    MarkupEvent::StartElement { name, .. } => {
                        if names_description(name) {
                            self.stage = Stage::Inside(level + 1);
                            push_copy(&mut self.after, event);
                        } else {
                            let at = if level == 1 {
                                find_rule(&self.rules, name, 0)
                            } else {
                                self.rules.len()
                            };
                            if level == 1 && at < self.rules.len() {
                                let mut input: Vec<MarkupEvent> = Vec::new();
                                input.push(event.duplicate());
                                assert(events_view(input@) =~= seq![event@]);
                                match self.rules[at].run_at(input.as_slice(), stamp) {
                                    Ok(written) => {
                                        append_events(&mut self.after, written);
                                    },
                                    Err(_) => {
                                        return Err(WriteError::RuleFailed(self.rules[at].name()));
                                    },
                                }
                                register_rule(&mut self.bindings, &self.rules[at]);
                                let ghost before = rules_view(self.rules@);
                                self.rules.remove(at);
                                assert(rules_view(self.rules@) =~= before.remove(at as int));
                                self.stage = Stage::Replacing(1);
                            } else {
                                self.stage = Stage::Inside(level + 1);
                                push_copy(&mut self.after, event);
                            }
                        }
                    },
                    _ => {
                        push_copy(&mut self.after, event);
                    },
                }
            },
            Stage::Replacing(depth) => {
                let behind = match event {
                    MarkupEvent::StartElement { .. } => depth + 1,
                    MarkupEvent::EndElement { .. } => depth - 1,
                    _ => depth,
                };
                if behind == 0 {
                    self.stage = Stage::Inside(1);
                } else {
                    self.stage = Stage::Replacing(behind);
                }
            },
            Stage::Closing => {
                let resumes = match event {
                    MarkupEvent::StartElement { name, .. } => names_description(name),
                    _ => false,
                };
                if resumes {
                    self.stage = Stage::Inside(1);
                } else {
                    match self.flush(stamp) {
                        Ok(()) => {},
                        Err(e) => {
                            return Err(e);
                        },
                    }
                    let ghost flushed_after = events_view(self.after@);
                    match self.pending.take() {
                        Some(pending) => {
                            let ghost held = pending@;
                            self.after.push(pending);
                            push_copy(&mut self.after, event);
                            assert(events_view(self.after@) =~= flushed_after + seq![
                                held,
                                event@,
                            ]);
                        },
                        None => {},
                    }
                    self.rules = Vec::new();
                    self.stage = Stage::After;
                    assert(rules_view(self.rules@) =~= Seq::<RuleView>::empty());
                }
            },
            Stage::After => {
                push_copy(&mut self.after, event);
            },
        }
        Ok(())
    }

    /// The events that the pass has written.
    fn assemble(self, attributes: Vec<Attribute>) -> (r: Vec<MarkupEvent>)
        ensures
            events_view(r@) == assembled(self@, attributes_view(attributes@)),
    {
        let mut output = self.before;
        match self.opened {
            Some(name) => {
                let ghost before = events_view(output@);
                let start = MarkupEvent::StartElement { name, attributes, namespace: self.bindings };
                output.push(start);
                assert(events_view(output@) =~= before.push(start@));
                append_events(&mut output, self.after);
            },
            None => {},
        }
        output
    }
}

/// Tries the rules on the attributes of the merged start.
fn apply_to_attributes(
    attributes: &mut Vec<Attribute>,
    bindings: &mut Namespace,
    rules: &Vec<RewriteRule>,
    stamp: &str,
) -> (r: Result<Vec<RewriteRule>, WriteError>)
    ensures
        ({
            let pass = attribute_pass(
                AttributePass {
                    attributes: attributes_view(old(attributes)@),
                    bindings: namespace_bindings(*old(bindings)),
                    left: Seq::empty(),
                    failed: None,
                },
                rules_view(rules@),
                stamp@,
                rules@.len(),
            );
            match r {
                Ok(left) => {
                    &&& pass.failed.is_none()
                    &&& rules_view(left@) == pass.left
                    &&& attributes_view(final(attributes)@) == pass.attributes
                    &&& namespace_bindings(*final(bindings)) == pass.bindings
                },
                Err(WriteError::RuleFailed(name)) => pass.failed == Some(name@),
            }
        }),
{
    let ghost start = AttributePass {
        attributes: attributes_view(attributes@),
        bindings: namespace_bindings(*bindings),
        left: Seq::empty(),
        failed: None,
    };
    let mut left: Vec<RewriteRule> = Vec::new();
    let mut i: usize = 0;
    assert(rules_view(left@) =~= Seq::<RuleView>::empty());
    while i < rules.len()
        invariant
            i <= rules@.len(),
            start == (AttributePass {
                attributes: attributes_view(old(attributes)@),
                bindings: namespace_bindings(*old(bindings)),
                left: Seq::empty(),
                failed: None,
            }),
            attribute_pass(start, rules_view(rules@), stamp@, i as nat) == (AttributePass {
                attributes: attributes_view(attributes@),
                bindings: namespace_bindings(*bindings),
                left: rules_view(left@),
                failed: None,
            }),
        decreases rules@.len() - i,
    {
        let rule = &rules[i];
        let at = find_match(attributes, rule);
        if rule.allow_attribute() && at < attributes.len() {
            match rule.run_attribute_at(attributes[at].value.as_str(), stamp) {
                Ok(value) => {
                    let ghost before = attributes_view(attributes@);
                    let name = attributes[at].name.duplicate();
                    attributes.set(at, Attribute { name, value });
                    assert(attributes_view(attributes@) =~= before.update(
                        at as int,
                        AttributeView { name: before[at as int].name, value: value@ },
                    ));
                    register_rule(bindings, rule);
                },
                Err(_) => {
                    let name = attributes[at].name.duplicate();
                    proof {
                        let before = attribute_pass(start, rules_view(rules@), stamp@, i as nat);
                        let behind = attribute_pass(
                            start,
                            rules_view(rules@),
                            stamp@,
                            (i + 1) as nat,
                        );
                        assert(rules_view(rules@)[i as int] == rule@);
                        assert(behind == attribute_step(before, rule@, stamp@));
                        assert(attributes_view(attributes@)[at as int].name == name@);
                        assert(behind.failed == Some(name@));
                        lemma_failed_stays(
                            start,
                            rules_view(rules@),
                            stamp@,
                            (i + 1) as nat,
                            rules@.len() as nat,
                        );
                    }
                    return Err(WriteError::RuleFailed(name));
                },
            }
        } else {
            let ghost before = rules_view(left@);
            left.push(rule.duplicate());
            assert(rules_view(left@) =~= before.push(rule@));
        }
        i += 1;
    }
    Ok(left)
}

/// Behind a rule that failed, the rules that follow change nothing.
proof fn lemma_failed_stays(
    start: AttributePass,
    rules: Seq<RuleView>,
    stamp: Seq<char>,
    n: nat,
    m: nat,
)
    requires
        n <= m,
        attribute_pass(start, rules, stamp, n).failed.is_some(),
    ensures
        attribute_pass(start, rules, stamp, m) == attribute_pass(start, rules, stamp, n),
    decreases m - n,
{
    if n < m {
        lemma_failed_stays(start, rules, stamp, n, (m - 1) as nat);
    }
}

impl XmpData {
    /// Rewrites the document by the rules, with `stamp` as the time that
    /// time stamps are set to.
    pub fn write_events_at(&self, rules: Vec<RewriteRule>, stamp: &str) -> (r: Result<
        Vec<MarkupEvent>,
        WriteError,
    >)
        ensures
            match r {
                Ok(events) => rewritten(self@, rules_view(rules@), stamp@) == Ok::<
                    Seq<MarkupEventView>,
                    QNameView,
                >(events_view(events@)),
                Err(WriteError::RuleFailed(name)) => rewritten(self@, rules_view(rules@), stamp@)
                    == Err::<Seq<MarkupEventView>, QNameView>(name@),
            },
    {
        let events = self.events();
        let (mut attributes, mut bindings) = gather(events);
        let left = match apply_to_attributes(&mut attributes, &mut bindings, &rules, stamp) {
            Ok(left) => left,
            Err(e) => {
                return Err(e);
            },
        };
        let active = retain_active(&left);
        let ghost start = pass_start(namespace_bindings(bindings), rules_view(active@));
        let mut pass = Pass::new(bindings, active);
        let mut i: usize = 0;
        while i < events.len()
            invariant
                i <= events@.len(),
                pass.steps == i,
                pass.bounded(),
                pass@ == pass_state(start, events_view(events@), stamp@, i as nat),
            decreases events@.len() - i,
        {
            match pass.step(&events[i], stamp) {
                Ok(()) => {},
                Err(e) => {
                    return Err(e);
                },
            }
            i += 1;
        }
        Ok(pass.assemble(attributes))
    }

    /// Rewrites the document by the rules, at the time of the call.
    pub fn write_events(&self, rules: Vec<RewriteRule>) -> (r: Result<Vec<MarkupEvent>, WriteError>)
        ensures
            exists|stamp: Seq<char>|
                is_timestamp(stamp) && #[trigger] is_rewriting(
                    r,
                    self@,
                    rules_view(rules@),
                    stamp,
                ),
    {
        let stamp = SetToCurrentDateTime::now();
        let ghost given = rules_view(rules@);
        let written = self.write_events_at(rules, stamp.as_str());
        assert(is_rewriting(written, self@, given, stamp@));
        written
    }
}

} // verus!
