//! Rewriting twice by a rule that sets a list.
//!
//! What the first rewriting has written, the second reads and writes again
//! as it is: only the attributes and namespace bindings of the description's
//! start can differ. So the field of the rule reads the same after both.

use vstd::prelude::*;

use crate::markup::{AttributeView, MarkupEventView, QNameView};
use crate::xmp::rewrite::{
    active_rules, assembled, attribute_pass, attribute_step, field_index, final_state, flushed,
    gathered_from, merged_start, pass_start, pass_state, pass_step, register, rewritten,
    AttributePass, PassState, Phase,
};
use crate::xmp::rule::{plain_end, plain_start, rdf_name, render_element, render_items, RuleView};
use crate::xmp::{
    element_texts, element_value, first_start, is_description, starts_element, subtree_len,
    texts_between,
};

verus! {

/// Two events are the same, or both start a description element of the
/// same name.
pub open spec fn alike(a: MarkupEventView, b: MarkupEventView) -> bool {
    a == b || (a matches MarkupEventView::StartElement { name: x, .. } && b matches
    MarkupEventView::StartElement { name: y, .. } && x == y && is_description(x))
}

/// Two documents are the same but for the attributes and the namespace
/// bindings with which description elements start.
pub open spec fn same_outline(a: Seq<MarkupEventView>, b: Seq<MarkupEventView>) -> bool {
    a.len() == b.len() && forall|i: int| 0 <= i < a.len() ==> alike(#[trigger] a[i], b[i])
}

/// Where an element starts does not depend on how description elements
/// start.
proof fn lemma_outline_first_start(
    a: Seq<MarkupEventView>,
    b: Seq<MarkupEventView>,
    namespace: Option<Seq<char>>,
    local_name: Seq<char>,
    from: int,
)
    requires
        same_outline(a, b),
        0 <= from,
    ensures
        first_start(a, namespace, local_name, from) == first_start(b, namespace, local_name, from),
    decreases a.len() - from,
{
    if from < a.len() {
        assert(alike(a[from], b[from]));
        if !starts_element(a[from], namespace, local_name) {
            lemma_outline_first_start(a, b, namespace, local_name, from + 1);
        }
    }
}

/// Where an element ends does not depend on how description elements start.
proof fn lemma_outline_subtree(
    a: Seq<MarkupEventView>,
    b: Seq<MarkupEventView>,
    from: int,
    depth: int,
)
    requires
        same_outline(a, b),
        0 <= from,
    ensures
        subtree_len(a, from, depth) == subtree_len(b, from, depth),
    decreases a.len() - from,
{
    if from < a.len() && depth > 0 {
        assert(alike(a[from], b[from]));
        lemma_outline_subtree(a, b, from + 1, crate::xmp::depth_behind(a[from], depth));
    }
}

/// The texts of a document do not depend on how description elements start.
proof fn lemma_outline_texts(a: Seq<MarkupEventView>, b: Seq<MarkupEventView>, from: int, to: int)
    requires
        same_outline(a, b),
    ensures
        texts_between(a, from, to) == texts_between(b, from, to),
    decreases to - from,
{
    if from < to && 0 <= from && to <= a.len() {
        assert(alike(a[to - 1], b[to - 1]));
        lemma_outline_texts(a, b, from, to - 1);
    }
}

/// What an element holds does not depend on how description elements
/// start.
pub proof fn lemma_outline_reads_the_same(
    a: Seq<MarkupEventView>,
    b: Seq<MarkupEventView>,
    namespace: Option<Seq<char>>,
    local_name: Seq<char>,
)
    requires
        same_outline(a, b),
    ensures
        element_value(a, namespace, local_name) == element_value(b, namespace, local_name),
        element_texts(a, namespace, local_name) == element_texts(b, namespace, local_name),
{
    lemma_outline_first_start(a, b, namespace, local_name, 0);
    let at = first_start(a, namespace, local_name, 0);
    crate::xmp::laws::lemma_first_start(a, namespace, local_name, 0);
    if at < a.len() {
        lemma_outline_subtree(a, b, at + 1, 1);
        lemma_outline_texts(a, b, at + 1, at + 1 + subtree_len(a, at + 1, 1));
        if at + 1 < a.len() {
            assert(alike(a[at + 1], b[at + 1]));
        }
    }
}

/// The state behind the first events of a list does not depend on what
/// follows them.
proof fn lemma_pass_of_prefix(
    start: PassState,
    events: Seq<MarkupEventView>,
    more: Seq<MarkupEventView>,
    stamp: Seq<char>,
    n: nat,
)
    requires
        n <= events.len(),
    ensures
        pass_state(start, events + more, stamp, n) == pass_state(start, events, stamp, n),
    decreases n,
{
    if n > 0 {
        lemma_pass_of_prefix(start, events, more, stamp, (n - 1) as nat);
        assert((events + more)[n - 1] == events[n - 1]);
    }
}

/// A pass over two lists of events, one behind the other, is a pass over
/// the second that starts where the pass over the first ends.
proof fn lemma_pass_of_both(
    start: PassState,
    events: Seq<MarkupEventView>,
    more: Seq<MarkupEventView>,
    stamp: Seq<char>,
    n: nat,
)
    requires
        n <= more.len(),
    ensures
        pass_state(start, events + more, stamp, events.len() + n) == pass_state(
            pass_state(start, events, stamp, events.len()),
            more,
            stamp,
            n,
        ),
    decreases n,
{
    if n == 0 {
        lemma_pass_of_prefix(start, events, more, stamp, events.len());
    } else {
        lemma_pass_of_both(start, events, more, stamp, (n - 1) as nat);
        assert((events + more)[events.len() + n - 1] == more[n - 1]);
    }
}

/// A pass over one event.
proof fn lemma_pass_of_one(state: PassState, event: MarkupEventView, stamp: Seq<char>)
    ensures
        pass_state(state, seq![event], stamp, 1) == pass_step(state, event, stamp),
{
    assert(pass_state(state, seq![event], stamp, 0) == state);
    assert(seq![event][0] == event);
}

/// A pass over two events.
proof fn lemma_pass_of_two(
    state: PassState,
    a: MarkupEventView,
    b: MarkupEventView,
    stamp: Seq<char>,
)
    ensures
        pass_state(state, seq![a, b], stamp, 2) == pass_step(
            pass_step(state, a, stamp),
            b,
            stamp,
        ),
{
    assert(pass_state(state, seq![a, b], stamp, 0) == state);
    assert(seq![a, b][0] == a);
    assert(seq![a, b][1] == b);
    assert(pass_state(state, seq![a, b], stamp, 1) == pass_step(state, a, stamp));
}

/// Inside a replaced element, a pass reads the items of a list and is where
/// it was.
proof fn lemma_pass_of_items(state: PassState, values: Seq<Seq<char>>, stamp: Seq<char>)
    requires
        state.phase matches Phase::Replacing { depth } && depth >= 1,
    ensures
        pass_state(state, render_items(values), stamp, render_items(values).len()) == state,
    decreases values.len(),
{
    if values.len() > 0 {
        let head = render_items(values.drop_last());
        let item = seq![
            plain_start(rdf_name("li"@)),
            MarkupEventView::Characters(values.last()),
            plain_end(rdf_name("li"@)),
        ];
        lemma_pass_of_items(state, values.drop_last(), stamp);
        lemma_pass_of_both(state, head, item, stamp, 3);
        assert(pass_state(state, item, stamp, 0) == state);
        let one = pass_state(state, item, stamp, 1);
        assert(one == pass_step(state, item[0], stamp));
        let two = pass_state(state, item, stamp, 2);
        assert(two == pass_step(one, item[1], stamp));
        assert(pass_state(state, item, stamp, 3) == pass_step(two, item[2], stamp));
    }
}

/// What a rule that sets a list writes for an element.
spec fn list_of(rule: RuleView, name: QNameView) -> Seq<MarkupEventView> {
    render_element(rule.action, name, Seq::empty())
}

/// A pass that meets, inside the description, what a rule has written for
/// its field, writes the same again, and the rule is done with.
proof fn lemma_pass_of_list(state: PassState, rule: RuleView, name: QNameView, stamp: Seq<char>)
    requires
        state.phase == (Phase::Inside { level: 1 }),
        state.rules == seq![rule],
        rule.action is List,
        rule.matches(name),
        !is_description(name),
    ensures
        pass_state(state, list_of(rule, name), stamp, list_of(rule, name).len()) == (PassState {
            after: state.after + list_of(rule, name),
            rules: Seq::empty(),
            bindings: register(state.bindings, rule),
            ..state
        }),
{
    let kind = rule.action->kind;
    let values = rule.action->values;
    let opening = seq![plain_start(name), plain_start(rdf_name(kind))];
    let items = render_items(values);
    let closing = seq![plain_end(rdf_name(kind)), plain_end(name)];
    let written = list_of(rule, name);
    assert(written == opening + items + closing);
    assert(field_index(state.rules, name, 0) == 0);
    assert(rule.run(seq![plain_start(name)], stamp) == written);
    assert(state.rules.remove(0) =~= Seq::<RuleView>::empty());
    lemma_pass_of_two(state, opening[0], opening[1], stamp);
    let opened = pass_state(state, opening, stamp, 2);
    assert(opening =~= seq![opening[0], opening[1]]);
    let replaced = PassState {
        after: state.after + written,
        rules: Seq::empty(),
        bindings: register(state.bindings, rule),
        phase: Phase::Replacing { depth: 2 },
        ..state
    };
    assert(opened == replaced);
    lemma_pass_of_items(replaced, values, stamp);
    lemma_pass_of_both(state, opening, items, stamp, items.len());
    let inside = pass_state(state, opening + items, stamp, (opening + items).len());
    assert(inside == replaced);
    lemma_pass_of_both(state, opening + items, closing, stamp, 2);
    lemma_pass_of_two(inside, closing[0], closing[1], stamp);
    assert(closing =~= seq![closing[0], closing[1]]);
}

/// How the second pass stands to the first, when it has read what the first
/// has written: it has written the same, and where the first is inside a
/// replaced element or holds the end of the description back, the second is
/// inside the description.
spec fn follows(first: PassState, second: PassState, rule: RuleView) -> bool {
    &&& second.before == first.before
    &&& second.opened == first.opened
    &&& second.after == first.after
    &&& second.rules == first.rules
    &&& first.rules == seq![rule] || first.rules == Seq::<RuleView>::empty()
    &&& first.phase is Before <==> first.opened.is_none()
    &&& first.phase is Before ==> first.after.len() == 0
    &&& match first.phase {
        Phase::Before => second.phase is Before,
        Phase::Inside { level } => level >= 1 && second.phase == (Phase::Inside { level }),
        Phase::Replacing { .. } => second.phase == (Phase::Inside { level: 1 }),
        Phase::Closing { pending } => second.phase == (Phase::Inside { level: 1 }) && (pending
            matches MarkupEventView::EndElement { name } && is_description(name)),
        Phase::After => second.phase is After && first.rules.len() == 0,
    }
}

/// What a pass has written so far, with the namespace bindings that the
/// description's start has in the end.
spec fn written_so_far(
    first: PassState,
    attributes: Seq<AttributeView>,
    bindings: Map<Seq<char>, Seq<char>>,
) -> Seq<MarkupEventView> {
    assembled(PassState { bindings, ..first }, attributes)
}

/// The second pass over what the first has written so far.
spec fn second_pass(
    start: PassState,
    first: PassState,
    attributes: Seq<AttributeView>,
    bindings: Map<Seq<char>, Seq<char>>,
    stamp: Seq<char>,
) -> PassState {
    pass_state(
        start,
        written_so_far(first, attributes, bindings),
        stamp,
        written_so_far(first, attributes, bindings).len(),
    )
}

/// The second pass goes on over what a step of the first has written.
proof fn lemma_second_pass_goes_on(
    start: PassState,
    first: PassState,
    behind: PassState,
    attributes: Seq<AttributeView>,
    bindings: Map<Seq<char>, Seq<char>>,
    written: Seq<MarkupEventView>,
    stamp: Seq<char>,
)
    requires
        written_so_far(behind, attributes, bindings) == written_so_far(
            first,
            attributes,
            bindings,
        ) + written,
    ensures
        second_pass(start, behind, attributes, bindings, stamp) == pass_state(
            second_pass(start, first, attributes, bindings, stamp),
            written,
            stamp,
            written.len(),
        ),
{
    lemma_pass_of_both(
        start,
        written_so_far(first, attributes, bindings),
        written,
        stamp,
        written.len(),
    );
}

/// The second pass, behind what the first has written so far, follows the
/// first.
spec fn keeps_up(
    again: PassState,
    state: PassState,
    attributes: Seq<AttributeView>,
    bindings: Map<Seq<char>, Seq<char>>,
    rule: RuleView,
    second: Seq<char>,
) -> bool {
    follows(state, second_pass(again, state, attributes, bindings, second), rule)
}

/// The second pass reads what a step of the first has written, and comes
/// to the state that is claimed of it.
proof fn lemma_goes_on_to(
    again: PassState,
    state: PassState,
    behind: PassState,
    attributes: Seq<AttributeView>,
    bindings: Map<Seq<char>, Seq<char>>,
    written: Seq<MarkupEventView>,
    second: Seq<char>,
    reached: PassState,
)
    requires
        written_so_far(behind, attributes, bindings) =~= written_so_far(
            state,
            attributes,
            bindings,
        ) + written,
        pass_state(
            second_pass(again, state, attributes, bindings, second),
            written,
            second,
            written.len(),
        ) == reached,
    ensures
        second_pass(again, behind, attributes, bindings, second) == reached,
{
    lemma_second_pass_goes_on(again, state, behind, attributes, bindings, written, second);
}

/// The second pass keeps up over a step before the description.
proof fn lemma_step_before(
    again: PassState,
    state: PassState,
    event: MarkupEventView,
    attributes: Seq<AttributeView>,
    bindings: Map<Seq<char>, Seq<char>>,
    rule: RuleView,
    first: Seq<char>,
    second: Seq<char>,
)
    requires
        state.phase is Before,
        keeps_up(again, state, attributes, bindings, rule, second),
    ensures
        keeps_up(again, pass_step(state, event, first), attributes, bindings, rule, second),
{
    let behind = pass_step(state, event, first);
    let old = second_pass(again, state, attributes, bindings, second);
    if behind.phase is Inside {
        let merged = MarkupEventView::StartElement {
            name: event->StartElement_name,
            attributes,
            namespace: bindings,
        };
        lemma_pass_of_one(old, merged, second);
        lemma_goes_on_to(again, state, behind, attributes, bindings,
            seq![merged],
            second,
            pass_step(old, merged, second),
        );
    } else if event is StartDocument {
        assert(pass_state(old, Seq::<MarkupEventView>::empty(), second, 0) == old);
        lemma_goes_on_to(again, state, behind, attributes, bindings, Seq::empty(), second, old);
    } else {
        lemma_pass_of_one(old, event, second);
        lemma_goes_on_to(again, state, behind, attributes, bindings,
            seq![event],
            second,
            pass_step(old, event, second),
        );
    }
}

/// The second pass keeps up over a step inside the description.
proof fn lemma_step_inside(
    again: PassState,
    state: PassState,
    event: MarkupEventView,
    attributes: Seq<AttributeView>,
    bindings: Map<Seq<char>, Seq<char>>,
    rule: RuleView,
    first: Seq<char>,
    second: Seq<char>,
)
    requires
        state.phase is Inside,
        rule.action is List,
        keeps_up(again, state, attributes, bindings, rule, second),
    ensures
        keeps_up(again, pass_step(state, event, first), attributes, bindings, rule, second),
{
    let behind = pass_step(state, event, first);
    let old = second_pass(again, state, attributes, bindings, second);
    if behind.phase is Closing {
        assert(pass_state(old, Seq::<MarkupEventView>::empty(), second, 0) == old);
        lemma_goes_on_to(again, state, behind, attributes, bindings, Seq::empty(), second, old);
    } else if behind.phase is Replacing {
        let name = event->StartElement_name;
        crate::xmp::laws::lemma_field_index(state.rules, name, 0);
        assert(state.rules == seq![rule]);
        assert(field_index(state.rules, name, 0) == 0);
        assert(seq![event][0] == event);
        let written = rule.run(seq![event], first);
        assert(written == list_of(rule, name));
        assert(state.rules.remove(0) =~= Seq::<RuleView>::empty());
        lemma_pass_of_list(old, rule, name, second);
        lemma_goes_on_to(again, state, behind, attributes, bindings,
            written,
            second,
            PassState {
                after: old.after + written,
                rules: Seq::empty(),
                bindings: register(old.bindings, rule),
                ..old
            },
        );
    } else {
        assert(behind.after == state.after.push(event));
        lemma_pass_of_one(old, event, second);
        lemma_goes_on_to(again, state, behind, attributes, bindings,
            seq![event],
            second,
            pass_step(old, event, second),
        );
    }
}

/// The second pass keeps up over a step inside a replaced element.
proof fn lemma_step_replacing(
    again: PassState,
    state: PassState,
    event: MarkupEventView,
    attributes: Seq<AttributeView>,
    bindings: Map<Seq<char>, Seq<char>>,
    rule: RuleView,
    first: Seq<char>,
    second: Seq<char>,
)
    requires
        state.phase is Replacing,
        keeps_up(again, state, attributes, bindings, rule, second),
    ensures
        keeps_up(again, pass_step(state, event, first), attributes, bindings, rule, second),
{
    let behind = pass_step(state, event, first);
    let old = second_pass(again, state, attributes, bindings, second);
    assert(pass_state(old, Seq::<MarkupEventView>::empty(), second, 0) == old);
    lemma_goes_on_to(again, state, behind, attributes, bindings, Seq::empty(), second, old);
}

/// The second pass keeps up over a step behind the end of the description.
proof fn lemma_step_closing(
    again: PassState,
    state: PassState,
    event: MarkupEventView,
    attributes: Seq<AttributeView>,
    bindings: Map<Seq<char>, Seq<char>>,
    rule: RuleView,
    first: Seq<char>,
    second: Seq<char>,
)
    requires
        state.phase is Closing,
        rule.action is List,
        !is_description(rule.name()),
        keeps_up(again, state, attributes, bindings, rule, second),
    ensures
        keeps_up(again, pass_step(state, event, first), attributes, bindings, rule, second),
{
    let behind = pass_step(state, event, first);
    let old = second_pass(again, state, attributes, bindings, second);
    let pending = state.phase->pending;
    let none = Seq::<MarkupEventView>::empty();
    if behind.phase is After {
        let tail = seq![pending, event];
        if state.rules.len() > 0 && rule.required {
            assert(state.rules == seq![rule]);
            let written = rule.run(Seq::empty(), first);
            assert(flushed(state.rules, first, 0) =~= none);
            assert(flushed(state.rules, first, 1) =~= written);
            assert(written == list_of(rule, rule.name()));
            lemma_pass_of_list(old, rule, rule.name(), second);
            let replaced = pass_state(old, written, second, written.len());
            lemma_pass_of_both(old, written, tail, second, 2);
            lemma_pass_of_two(replaced, pending, event, second);
            assert(flushed(replaced.rules, second, 0) =~= none);
            let held = pass_step(replaced, pending, second);
            let closed = pass_step(held, event, second);
            assert(closed.after =~= behind.after);
            lemma_goes_on_to(again, state, behind, attributes, bindings, written + tail, second, closed);
        } else {
            assert(flushed(state.rules, first, 0) =~= none);
            assert(flushed(state.rules, second, 0) =~= none);
            if state.rules.len() > 0 {
                assert(state.rules == seq![rule]);
                assert(flushed(state.rules, first, 1) =~= none);
                assert(flushed(state.rules, second, 1) =~= none);
            }
            lemma_pass_of_two(old, pending, event, second);
            let held = pass_step(old, pending, second);
            let closed = pass_step(held, event, second);
            assert(closed.after =~= behind.after);
            lemma_goes_on_to(again, state, behind, attributes, bindings, tail, second, closed);
        }
    } else {
        assert(pass_state(old, none, second, 0) == old);
        lemma_goes_on_to(again, state, behind, attributes, bindings, none, second, old);
    }
}

/// The second pass keeps up over a step behind the description.
proof fn lemma_step_after(
    again: PassState,
    state: PassState,
    event: MarkupEventView,
    attributes: Seq<AttributeView>,
    bindings: Map<Seq<char>, Seq<char>>,
    rule: RuleView,
    first: Seq<char>,
    second: Seq<char>,
)
    requires
        state.phase is After,
        keeps_up(again, state, attributes, bindings, rule, second),
    ensures
        keeps_up(again, pass_step(state, event, first), attributes, bindings, rule, second),
{
    let behind = pass_step(state, event, first);
    let old = second_pass(again, state, attributes, bindings, second);
    lemma_pass_of_one(old, event, second);
    lemma_goes_on_to(again, state, behind, attributes, bindings,
        seq![event],
        second,
        pass_step(old, event, second),
    );
}

/// The second pass keeps up with the first over all its steps.
proof fn lemma_second_pass_follows(
    start: PassState,
    again: PassState,
    attributes: Seq<AttributeView>,
    bindings: Map<Seq<char>, Seq<char>>,
    events: Seq<MarkupEventView>,
    rule: RuleView,
    first: Seq<char>,
    second: Seq<char>,
    n: nat,
)
    requires
        n <= events.len(),
        rule.action is List,
        !is_description(rule.name()),
        start == pass_start(start.bindings, seq![rule]),
        again == pass_start(again.bindings, seq![rule]),
    ensures
        keeps_up(again, pass_state(start, events, first, n), attributes, bindings, rule, second),
    decreases n,
{
    if n == 0 {
        assert(written_so_far(start, attributes, bindings) =~= Seq::<MarkupEventView>::empty());
    } else {
        lemma_second_pass_follows(
            start,
            again,
            attributes,
            bindings,
            events,
            rule,
            first,
            second,
            (n - 1) as nat,
        );
        let state = pass_state(start, events, first, (n - 1) as nat);
        let event = events[n - 1];
        match state.phase {
            Phase::Before => lemma_step_before(
                again,
                state,
                event,
                attributes,
                bindings,
                rule,
                first,
                second,
            ),
            Phase::Inside { .. } => lemma_step_inside(
                again,
                state,
                event,
                attributes,
                bindings,
                rule,
                first,
                second,
            ),
            Phase::Replacing { .. } => lemma_step_replacing(
                again,
                state,
                event,
                attributes,
                bindings,
                rule,
                first,
                second,
            ),
            Phase::Closing { .. } => lemma_step_closing(
                again,
                state,
                event,
                attributes,
                bindings,
                rule,
                first,
                second,
            ),
            Phase::After => lemma_step_after(again, state, event, attributes, bindings, rule, first, second),
        }
    }
}

/// A rule that is never applied to an attribute is left for the elements,
/// whatever the attributes.
proof fn lemma_rule_is_left_alone(first: AttributePass, rule: RuleView, stamp: Seq<char>)
    requires
        !rule.allow_attribute,
        first.failed.is_none(),
        first.left.len() == 0,
    ensures
        attribute_pass(first, seq![rule], stamp, 1) == (AttributePass {
            left: seq![rule],
            ..first
        }),
        active_rules(seq![rule], 1) == seq![rule],
{
    assert(attribute_pass(first, seq![rule], stamp, 0) == first);
    assert(attribute_pass(first, seq![rule], stamp, 1) == attribute_step(first, rule, stamp));
    assert(first.left.push(rule) =~= seq![rule]);
    assert(active_rules(seq![rule], 0) =~= Seq::<RuleView>::empty());
    assert(field_index(seq![rule], rule.name(), 1) == 1);
    assert(Seq::<RuleView>::empty().push(rule) =~= seq![rule]);
}

/// Rewriting twice by a rule that sets a list changes nothing more: the
/// second rewriting gives the document of the first, but for the attributes
/// and namespace bindings with which description elements start, and the
/// field of the rule reads the same in both. This holds of a rule that is
/// applied to elements only, and is not for the description element itself.
pub proof fn lemma_list_rule_applied_twice(
    events: Seq<MarkupEventView>,
    rule: RuleView,
    first: Seq<char>,
    second: Seq<char>,
)
    requires
        rule.action is List,
        !rule.allow_attribute,
        !is_description(rule.name()),
    ensures
        rewritten(events, seq![rule], first) matches Ok(once) && rewritten(
            once,
            seq![rule],
            second,
        ) matches Ok(twice) && same_outline(once, twice) && element_texts(
            twice,
            rule.namespace,
            rule.local_name,
        ) == element_texts(once, rule.namespace, rule.local_name) && element_value(
            twice,
            rule.namespace,
            rule.local_name,
        ) == element_value(once, rule.namespace, rule.local_name),
{
    let rules = seq![rule];
    let gathered = gathered_from(events, events.len());
    lemma_rule_is_left_alone(
        AttributePass {
            attributes: gathered.attributes,
            bindings: gathered.bindings,
            left: Seq::empty(),
            failed: None,
        },
        rule,
        first,
    );
    let merged = merged_start(events, rules, first);
    let start = pass_start(merged.bindings, rules);
    let state = final_state(events, rules, first);
    let once = assembled(state, merged.attributes);
    assert(rewritten(events, rules, first) == Ok::<Seq<MarkupEventView>, QNameView>(once));

    let regathered = gathered_from(once, once.len());
    lemma_rule_is_left_alone(
        AttributePass {
            attributes: regathered.attributes,
            bindings: regathered.bindings,
            left: Seq::empty(),
            failed: None,
        },
        rule,
        second,
    );
    let remerged = merged_start(once, rules, second);
    let again = pass_start(remerged.bindings, rules);
    let restate = final_state(once, rules, second);
    let twice = assembled(restate, remerged.attributes);
    assert(rewritten(once, rules, second) == Ok::<Seq<MarkupEventView>, QNameView>(twice));

    lemma_second_pass_follows(
        start,
        again,
        merged.attributes,
        state.bindings,
        events,
        rule,
        first,
        second,
        events.len(),
    );
    assert(PassState { bindings: state.bindings, ..state } == state);
    assert(restate == second_pass(again, state, merged.attributes, state.bindings, second));
    assert(follows(state, restate, rule));
    lemma_opened_is_description(start, events, first, events.len());
    assert forall|i: int| 0 <= i < once.len() implies alike(#[trigger] once[i], twice[i]) by {
        if state.opened.is_some() {
            if i < state.before.len() {
                assert(once[i] == state.before[i]);
                assert(twice[i] == state.before[i]);
            } else if i > state.before.len() {
                assert(once[i] == state.after[i - state.before.len() - 1]);
                assert(twice[i] == state.after[i - state.before.len() - 1]);
            }
        }
    }
    assert(once.len() == twice.len());
    lemma_outline_reads_the_same(once, twice, rule.namespace, rule.local_name);
}

/// The description that a pass has opened has the name of the description
/// element.
pub proof fn lemma_opened_is_description(
    start: PassState,
    events: Seq<MarkupEventView>,
    stamp: Seq<char>,
    n: nat,
)
    requires
        n <= events.len(),
        start.opened.is_none(),
    ensures
        pass_state(start, events, stamp, n).opened matches Some(name) ==> is_description(name),
    decreases n,
{
    if n > 0 {
        lemma_opened_is_description(start, events, stamp, (n - 1) as nat);
    }
}

} // verus!
