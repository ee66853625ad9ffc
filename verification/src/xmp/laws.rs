//! What holds of rewriting, whatever the document and the rules.

use vstd::prelude::*;

use crate::markup::{AttributeView, MarkupEventView, QNameView};
use crate::xmp::rewrite::{
    active_rules, assembled, attribute_pass, attribute_step, field_index, final_state,
    first_match, flushed, flushed_bindings, gathered_from, merged_start, pass_start, pass_state,
    pass_step, rewritten, AttributePass, PassState, Phase,
};
use crate::xmp::rule::{plain_start, RuleView};
use crate::xmp::{first_start, is_description, starts_element};

verus! {

/// A list action writes the same element in place of what it has written
/// itself: applied twice, a rule with a list action changes nothing more.
pub proof fn lemma_list_rule_is_idempotent(
    rule: RuleView,
    input: Seq<MarkupEventView>,
    first: Seq<char>,
    second: Seq<char>,
)
    requires
        rule.action is List,
    ensures
        rule.run(rule.run(input, first), second) == rule.run(input, first),
{
    let name = rule.element_name(input);
    let written = rule.run(input, first);
    assert(written[0] == plain_start(name));
    assert(rule.element_name(written) == name);
}

/// A time stamp action writes the time at which it is run: applied twice,
/// a rule with such an action leaves the later time, so the value changes
/// with each application that comes at another time.
pub proof fn lemma_timestamp_rule_follows_the_time(
    rule: RuleView,
    input: Seq<MarkupEventView>,
    first: Seq<char>,
    second: Seq<char>,
)
    requires
        rule.action is Timestamp,
    ensures
        rule.run(rule.run(input, first), second) == rule.run(input, second),
        first != second ==> rule.run(rule.run(input, first), second) != rule.run(input, first),
{
    let name = rule.element_name(input);
    let written = rule.run(input, first);
    assert(written[0] == plain_start(name));
    assert(rule.element_name(written) == name);
    assert(rule.run(input, first)[1] == MarkupEventView::Characters(first));
    assert(rule.run(input, second)[1] == MarkupEventView::Characters(second));
}

/// A document holds an element of this namespace and local name.
pub open spec fn has_element(
    events: Seq<MarkupEventView>,
    namespace: Option<Seq<char>>,
    local_name: Seq<char>,
) -> bool {
    exists|at: int|
        0 <= at < events.len() && #[trigger] starts_element(events[at], namespace, local_name)
}

/// `first_start` is the first index at which an element of the name starts.
pub proof fn lemma_first_start(
    events: Seq<MarkupEventView>,
    namespace: Option<Seq<char>>,
    local_name: Seq<char>,
    from: int,
)
    requires
        0 <= from <= events.len(),
    ensures
        from <= first_start(events, namespace, local_name, from) <= events.len(),
        first_start(events, namespace, local_name, from) < events.len() ==> starts_element(
            events[first_start(events, namespace, local_name, from)],
            namespace,
            local_name,
        ),
        forall|k: int|
            from <= k < first_start(events, namespace, local_name, from) ==> !starts_element(
                #[trigger] events[k],
                namespace,
                local_name,
            ),
    decreases events.len() - from,
{
    if from < events.len() && !starts_element(events[from], namespace, local_name) {
        lemma_first_start(events, namespace, local_name, from + 1);
    }
}

/// The field of a rule is absent from a document: no element has the name
/// of the field, and no attribute of a top-level description element has
/// it.
pub open spec fn field_absent(events: Seq<MarkupEventView>, rule: RuleView) -> bool {
    &&& !has_element(events, rule.namespace, rule.local_name)
    &&& first_match(gathered_from(events, events.len()).attributes, rule, 0) == gathered_from(
        events,
        events.len(),
    ).attributes.len()
}

/// The names of attributes.
pub open spec fn names_of(attributes: Seq<AttributeView>) -> Seq<QNameView> {
    attributes.map_values(|a: AttributeView| a.name)
}

/// Which attribute a rule is for depends on the names of the attributes
/// only.
proof fn lemma_first_match_by_names(
    a: Seq<AttributeView>,
    b: Seq<AttributeView>,
    rule: RuleView,
    from: int,
)
    requires
        names_of(a) == names_of(b),
        0 <= from,
    ensures
        first_match(a, rule, from) == first_match(b, rule, from),
    decreases a.len() - from,
{
    assert(a.len() == names_of(a).len());
    assert(b.len() == names_of(b).len());
    if from < a.len() {
        assert(names_of(a)[from] == a[from].name);
        assert(names_of(b)[from] == b[from].name);
        if !rule.matches(a[from].name) {
            lemma_first_match_by_names(a, b, rule, from + 1);
        }
    }
}

/// `first_match` is an index of the attributes, or their number.
proof fn lemma_first_match_bounds(attributes: Seq<AttributeView>, rule: RuleView, from: int)
    requires
        0 <= from <= attributes.len(),
    ensures
        from <= first_match(attributes, rule, from) <= attributes.len(),
    decreases attributes.len() - from,
{
    if from < attributes.len() && !rule.matches(attributes[from].name) {
        lemma_first_match_bounds(attributes, rule, from + 1);
    }
}

/// `rule` is among `rules`, and no rule behind it is for the same field.
pub open spec fn is_last_for_its_field(rules: Seq<RuleView>, rule: RuleView) -> bool {
    exists|at: int|
        {
            &&& 0 <= at < rules.len()
            &&& #[trigger] rules[at] == rule
            &&& forall|later: int|
                at < later < rules.len() ==> !(#[trigger] rules[later]).matches(rule.name())
        }
}

/// A rule whose field has no attribute is left for the elements, and stays
/// the last for its field.
proof fn lemma_rule_is_left(
    start: AttributePass,
    rules: Seq<RuleView>,
    stamp: Seq<char>,
    k: int,
    n: nat,
)
    requires
        0 <= k < rules.len(),
        n <= rules.len(),
        start.failed.is_none(),
        start.left.len() == 0,
        first_match(start.attributes, rules[k], 0) == start.attributes.len(),
        forall|later: int|
            k < later < rules.len() ==> !(#[trigger] rules[later]).matches(rules[k].name()),
        attribute_pass(start, rules, stamp, n).failed.is_none(),
    ensures
        names_of(attribute_pass(start, rules, stamp, n).attributes) == names_of(start.attributes),
        n > k ==> is_last_for_its_field(attribute_pass(start, rules, stamp, n).left, rules[k]),
    decreases n,
{
    if n > 0 {
        let before = attribute_pass(start, rules, stamp, (n - 1) as nat);
        let rule = rules[n - 1];
        let behind = attribute_pass(start, rules, stamp, n);
        assert(behind == attribute_step(before, rule, stamp));
        assert(before.failed.is_none());
        lemma_rule_is_left(start, rules, stamp, k, (n - 1) as nat);
        let at = first_match(before.attributes, rule, 0);
        lemma_first_match_bounds(before.attributes, rule, 0);
        if rule.allow_attribute && at < before.attributes.len() {
            assert(rule.run_attribute(stamp) is Ok);
            let value = rule.run_attribute(stamp).unwrap();
            assert(behind.attributes == before.attributes.update(
                at,
                AttributeView { name: before.attributes[at].name, value },
            ));
            assert(names_of(behind.attributes) =~= names_of(before.attributes));
            if n - 1 == k {
                lemma_first_match_by_names(before.attributes, start.attributes, rule, 0);
                assert(before.attributes.len() == names_of(before.attributes).len());
                assert(start.attributes.len() == names_of(start.attributes).len());
            }
        } else {
            assert(behind.left == before.left.push(rule));
            if n - 1 == k {
                let here = before.left.len() as int;
                assert(behind.left[here] == rules[k]);
            } else if n - 1 > k {
                let here = choose|at: int|
                    {
                        &&& 0 <= at < before.left.len()
                        &&& #[trigger] before.left[at] == rules[k]
                        &&& forall|later: int|
                            at < later < before.left.len() ==> !(
                            #[trigger] before.left[later]).matches(rules[k].name())
                    };
                assert(behind.left[here] == rules[k]);
                assert forall|later: int| here < later < behind.left.len() implies !(
                #[trigger] behind.left[later]).matches(rules[k].name()) by {
                    if later < before.left.len() {
                        assert(behind.left[later] == before.left[later]);
                    } else {
                        assert(behind.left[later] == rules[n - 1]);
                    }
                }
            }
        }
    }
}

/// Where no rule from `from` on is for a field, `field_index` finds none.
proof fn lemma_field_index_none(rules: Seq<RuleView>, name: QNameView, from: int)
    requires
        0 <= from,
        forall|at: int| from <= at < rules.len() ==> !(#[trigger] rules[at]).matches(name),
    ensures
        field_index(rules, name, from) == rules.len(),
    decreases rules.len() - from,
{
    if from < rules.len() {
        lemma_field_index_none(rules, name, from + 1);
    }
}

/// `field_index` finds a rule that is for the field, where it finds one.
pub proof fn lemma_field_index(rules: Seq<RuleView>, name: QNameView, from: int)
    requires
        0 <= from <= rules.len(),
    ensures
        from <= field_index(rules, name, from) <= rules.len(),
        field_index(rules, name, from) < rules.len() ==> rules[field_index(
            rules,
            name,
            from,
        )].matches(name),
    decreases rules.len() - from,
{
    if from < rules.len() && !rules[from].matches(name) {
        lemma_field_index(rules, name, from + 1);
    }
}

/// The last rule for a field is among the rules that are applied.
proof fn lemma_last_rule_is_active(rules: Seq<RuleView>, rule: RuleView, n: nat)
    requires
        is_last_for_its_field(rules, rule),
        n <= rules.len(),
    ensures
        n == rules.len() ==> active_rules(rules, n).contains(rule),
        forall|at: int|
            0 <= at < n && rules[at] == rule && (forall|later: int|
                at < later < rules.len() ==> !(#[trigger] rules[later]).matches(rule.name()))
                ==> active_rules(rules, n).contains(rule),
    decreases n,
{
    if n > 0 {
        lemma_last_rule_is_active(rules, rule, (n - 1) as nat);
        let head = active_rules(rules, (n - 1) as nat);
        assert forall|at: int|
            0 <= at < n && rules[at] == rule && (forall|later: int|
                at < later < rules.len() ==> !(#[trigger] rules[later]).matches(
                    rule.name(),
                )) implies active_rules(rules, n).contains(rule) by {
            if at == n - 1 {
                lemma_field_index_none(rules, rule.name(), n as int);
                assert(active_rules(rules, n) == head.push(rule));
                assert(head.push(rule)[head.len() as int] == rule);
            } else {
                assert(head.contains(rule));
                let found = choose|i: int| 0 <= i < head.len() && head[i] == rule;
                if active_rules(rules, n) != head {
                    assert(active_rules(rules, n) == head.push(rules[n - 1]));
                    assert(head.push(rules[n - 1])[found] == rule);
                }
            }
        }
    }
    if n == rules.len() {
        let at = choose|at: int|
            {
                &&& 0 <= at < rules.len()
                &&& #[trigger] rules[at] == rule
                &&& forall|later: int|
                    at < later < rules.len() ==> !(#[trigger] rules[later]).matches(rule.name())
            };
        assert(0 <= at < n && rules[at] == rule);
    }
}

/// What the required rules write holds the field of each of them.
proof fn lemma_flushed_holds_field(rules: Seq<RuleView>, stamp: Seq<char>, rule: RuleView, n: nat)
    requires
        n <= rules.len(),
        rule.required,
        exists|at: int| 0 <= at < n && rules[at] == rule,
    ensures
        has_element(flushed(rules, stamp, n), rule.namespace, rule.local_name),
    decreases n,
{
    let head = flushed(rules, stamp, (n - 1) as nat);
    if rules[n - 1] == rule {
        let written = rule.run(Seq::empty(), stamp);
        assert(flushed(rules, stamp, n) == head + written);
        assert(written[0] == plain_start(rule.name()));
        assert((head + written)[head.len() as int] == written[0]);
        assert(starts_element(
            flushed(rules, stamp, n)[head.len() as int],
            rule.namespace,
            rule.local_name,
        ));
    } else {
        let at = choose|at: int| 0 <= at < n && rules[at] == rule;
        assert(0 <= at < n - 1 && rules[at] == rule);
        lemma_flushed_holds_field(rules, stamp, rule, (n - 1) as nat);
        let found = choose|m: int|
            0 <= m < head.len() && #[trigger] starts_element(
                head[m],
                rule.namespace,
                rule.local_name,
            );
        if rules[n - 1].required {
            let written = rules[n - 1].run(Seq::empty(), stamp);
            assert((head + written)[found] == head[found]);
        }
        assert(starts_element(flushed(rules, stamp, n)[found], rule.namespace, rule.local_name));
    }
}

/// What holds of a pass while a required rule waits for its field, and once
/// the rule has written it.
spec fn waits_or_wrote(state: PassState, rule: RuleView) -> bool {
    &&& !(state.phase is After) ==> state.rules.contains(rule)
    &&& state.phase is After ==> has_element(state.after, rule.namespace, rule.local_name)
    &&& !(state.phase is Before) ==> state.opened.is_some()
}

/// A required rule whose field is absent stays among the rules until the
/// description is closed, and writes its field there.
proof fn lemma_pass_writes_field(
    start: PassState,
    events: Seq<MarkupEventView>,
    stamp: Seq<char>,
    rule: RuleView,
    n: nat,
)
    requires
        n <= events.len(),
        rule.required,
        !has_element(events, rule.namespace, rule.local_name),
        start.phase is Before,
        start.rules.contains(rule),
    ensures
        waits_or_wrote(pass_state(start, events, stamp, n), rule),
    decreases n,
{
    if n > 0 {
        lemma_pass_writes_field(start, events, stamp, rule, (n - 1) as nat);
        let state = pass_state(start, events, stamp, (n - 1) as nat);
        let event = events[n - 1];
        let behind = pass_step(state, event, stamp);
        assert(!starts_element(event, rule.namespace, rule.local_name));
        match state.phase {
            Phase::Before => {},
            Phase::Inside { level } => {
                if event is StartElement {
                    let name = event->StartElement_name;
                    let at = field_index(state.rules, name, 0);
                    lemma_field_index(state.rules, name, 0);
                    if behind.rules != state.rules {
                        assert(behind.rules == state.rules.remove(at));
                        let found = choose|i: int|
                            0 <= i < state.rules.len() && state.rules[i] == rule;
                        assert(found != at);
                        if found < at {
                            assert(state.rules.remove(at)[found] == rule);
                        } else {
                            assert(state.rules.remove(at)[found - 1] == rule);
                        }
                    }
                }
            },
            Phase::Replacing { depth } => {},
            Phase::Closing { pending } => {
                if behind.phase is After {
                    let written = flushed(state.rules, stamp, state.rules.len());
                    lemma_flushed_holds_field(state.rules, stamp, rule, state.rules.len());
                    let m = choose|m: int|
                        0 <= m < written.len() && #[trigger] starts_element(
                            written[m],
                            rule.namespace,
                            rule.local_name,
                        );
                    assert(behind.after == state.after + written + seq![pending, event]);
                    assert(behind.after[state.after.len() + m] == written[m]);
                    assert(starts_element(
                        behind.after[state.after.len() + m],
                        rule.namespace,
                        rule.local_name,
                    ));
                }
            },
            Phase::After => {
                let m = choose|m: int|
                    0 <= m < state.after.len() && #[trigger] starts_element(
                        state.after[m],
                        rule.namespace,
                        rule.local_name,
                    );
                assert(behind.after == state.after.push(event));
                assert(behind.after[m] == state.after[m]);
                assert(starts_element(behind.after[m], rule.namespace, rule.local_name));
            },
        }
    }
}

/// A required rule writes its field where the document lacks it: if the
/// field of a required rule is absent from a document in which the
/// description is closed and followed by anything, and no later rule is for
/// the same field, then the rewritten document holds an element of the
/// field.
pub proof fn lemma_required_field_is_written(
    events: Seq<MarkupEventView>,
    rules: Seq<RuleView>,
    stamp: Seq<char>,
    k: int,
)
    requires
        0 <= k < rules.len(),
        rules[k].required,
        forall|later: int|
            k < later < rules.len() ==> !(#[trigger] rules[later]).matches(rules[k].name()),
        field_absent(events, rules[k]),
        final_state(events, rules, stamp).phase is After,
    ensures
        rewritten(events, rules, stamp) matches Ok(output) ==> has_element(
            output,
            rules[k].namespace,
            rules[k].local_name,
        ),
{
    let rule = rules[k];
    let gathered = gathered_from(events, events.len());
    let first = AttributePass {
        attributes: gathered.attributes,
        bindings: gathered.bindings,
        left: Seq::empty(),
        failed: None,
    };
    let merged = merged_start(events, rules, stamp);
    if merged.failed.is_none() {
        lemma_rule_is_left(first, rules, stamp, k, rules.len());
        lemma_last_rule_is_active(merged.left, rule, merged.left.len());
        let start = pass_start(merged.bindings, active_rules(merged.left, merged.left.len()));
        lemma_pass_writes_field(start, events, stamp, rule, events.len());
        let state = final_state(events, rules, stamp);
        let output = assembled(state, merged.attributes);
        let m = choose|m: int|
            0 <= m < state.after.len() && #[trigger] starts_element(
                state.after[m],
                rule.namespace,
                rule.local_name,
            );
        assert(output[state.before.len() + 1 + m] == state.after[m]);
        assert(starts_element(
            output[state.before.len() + 1 + m],
            rule.namespace,
            rule.local_name,
        ));
    }
}

/// The state of the pass over `events` behind the first `n` of them.
pub open spec fn state_behind(
    events: Seq<MarkupEventView>,
    rules: Seq<RuleView>,
    stamp: Seq<char>,
    n: nat,
) -> PassState {
    let start = merged_start(events, rules, stamp);
    pass_state(
        pass_start(start.bindings, active_rules(start.left, start.left.len())),
        events,
        stamp,
        n,
    )
}

/// The description ends for good with the event before `close`: the pass
/// holds its end back there, and the event at `close` starts no
/// description that would go on with it.
pub open spec fn description_ends_before(
    events: Seq<MarkupEventView>,
    rules: Seq<RuleView>,
    stamp: Seq<char>,
    close: int,
) -> bool {
    &&& 0 < close < events.len()
    &&& state_behind(events, rules, stamp, close as nat).phase is Closing
    &&& !starts_element(events[close], Some(crate::ns::RDF@), "Description"@)
}

/// `output` ends with `written`, then `others`, then the event `end`, then
/// `rest`; `lead` is what stands before them.
pub open spec fn stands_last(
    output: Seq<MarkupEventView>,
    lead: Seq<MarkupEventView>,
    written: Seq<MarkupEventView>,
    others: Seq<MarkupEventView>,
    end: MarkupEventView,
    rest: Seq<MarkupEventView>,
) -> bool {
    output == lead + written + others + seq![end] + rest
}

/// The start of a description element in `output` binds `prefix`.
pub open spec fn description_binds(output: Seq<MarkupEventView>, prefix: Seq<char>) -> bool {
    exists|at: int|
        0 <= at < output.len() && #[trigger] starts_element(
            output[at],
            Some(crate::ns::RDF@),
            "Description"@,
        ) && output[at]->StartElement_namespace.dom().contains(prefix)
}

/// `output` ends with the element that `rule` writes from nothing, then
/// what other required rules write from nothing, then the event before
/// `close`, then the events from `close` on; and the description binds the
/// prefix of the rule, where the rule has a namespace.
pub open spec fn is_written_last(
    output: Seq<MarkupEventView>,
    events: Seq<MarkupEventView>,
    rule: RuleView,
    stamp: Seq<char>,
    close: int,
) -> bool {
    &&& exists|lead: Seq<MarkupEventView>, others: Seq<RuleView>| #[trigger]
        stands_last(
            output,
            lead,
            rule.run(Seq::empty(), stamp),
            flushed(others, stamp, others.len()),
            events[close - 1],
            events.subrange(close, events.len() as int),
        )
    &&& rule.namespace.is_some() ==> description_binds(output, rule.prefix)
}

/// What the required rules among the first rules of a list write does not
/// depend on the rules behind them.
proof fn lemma_flushed_of_prefix(a: Seq<RuleView>, b: Seq<RuleView>, stamp: Seq<char>, n: nat)
    requires
        n <= a.len(),
    ensures
        flushed(a + b, stamp, n) == flushed(a, stamp, n),
    decreases n,
{
    if n > 0 {
        lemma_flushed_of_prefix(a, b, stamp, (n - 1) as nat);
        assert((a + b)[n - 1] == a[n - 1]);
    }
}

/// What the required rules of two lists write, one behind the other.
proof fn lemma_flushed_of_both(a: Seq<RuleView>, b: Seq<RuleView>, stamp: Seq<char>, n: nat)
    requires
        n <= b.len(),
    ensures
        flushed(a + b, stamp, a.len() + n) == flushed(a, stamp, a.len()) + flushed(b, stamp, n),
    decreases n,
{
    if n == 0 {
        lemma_flushed_of_prefix(a, b, stamp, a.len());
        assert(flushed(a, stamp, a.len()) + flushed(b, stamp, 0) =~= flushed(a, stamp, a.len()));
    } else {
        lemma_flushed_of_both(a, b, stamp, (n - 1) as nat);
        assert((a + b)[a.len() + n - 1] == b[n - 1]);
        let head = flushed(a, stamp, a.len());
        let tail = flushed(b, stamp, (n - 1) as nat);
        let written = b[n - 1].run(Seq::empty(), stamp);
        assert((head + tail) + written =~= head + (tail + written));
    }
}

/// The prefix of a required rule is bound once the prefixes of the
/// required rules are registered.
proof fn lemma_flushed_binds(
    bindings: Map<Seq<char>, Seq<char>>,
    rules: Seq<RuleView>,
    at: int,
    n: nat,
)
    requires
        0 <= at < n <= rules.len(),
        rules[at].required,
        rules[at].namespace.is_some(),
    ensures
        flushed_bindings(bindings, rules, n).dom().contains(rules[at].prefix),
    decreases n,
{
    if at < n - 1 {
        lemma_flushed_binds(bindings, rules, at, (n - 1) as nat);
    }
}

/// Behind the description a pass writes every event as it is.
proof fn lemma_rest_is_copied(
    start: PassState,
    events: Seq<MarkupEventView>,
    stamp: Seq<char>,
    from: nat,
    n: nat,
)
    requires
        from <= n <= events.len(),
        pass_state(start, events, stamp, from).phase is After,
    ensures
        pass_state(start, events, stamp, n) == (PassState {
            after: pass_state(start, events, stamp, from).after + events.subrange(
                from as int,
                n as int,
            ),
            ..pass_state(start, events, stamp, from)
        }),
    decreases n,
{
    let reached = pass_state(start, events, stamp, from);
    if n == from {
        assert(reached.after + events.subrange(from as int, n as int) =~= reached.after);
    } else {
        lemma_rest_is_copied(start, events, stamp, from, (n - 1) as nat);
        assert((reached.after + events.subrange(from as int, n - 1)).push(events[n - 1])
            =~= reached.after + events.subrange(from as int, n as int));
    }
}

/// A required rule whose field is absent is still among the rules when
/// the end of the description is held back.
pub proof fn lemma_rule_waits(
    events: Seq<MarkupEventView>,
    rules: Seq<RuleView>,
    stamp: Seq<char>,
    k: int,
    close: int,
)
    requires
        0 <= k < rules.len(),
        rules[k].required,
        forall|later: int|
            k < later < rules.len() ==> !(#[trigger] rules[later]).matches(rules[k].name()),
        field_absent(events, rules[k]),
        description_ends_before(events, rules, stamp, close),
        merged_start(events, rules, stamp).failed.is_none(),
    ensures
        state_behind(events, rules, stamp, close as nat).rules.contains(rules[k]),
        state_behind(events, rules, stamp, close as nat).opened.is_some(),
{
    let gathered = gathered_from(events, events.len());
    let first = AttributePass {
        attributes: gathered.attributes,
        bindings: gathered.bindings,
        left: Seq::empty(),
        failed: None,
    };
    let merged = merged_start(events, rules, stamp);
    lemma_rule_is_left(first, rules, stamp, k, rules.len());
    lemma_last_rule_is_active(merged.left, rules[k], merged.left.len());
    let start = pass_start(merged.bindings, active_rules(merged.left, merged.left.len()));
    lemma_pass_writes_field(start, events, stamp, rules[k], close as nat);
}

/// The start of the description in the rewritten document, where the end
/// of the description is held back before `close`.
pub open spec fn opening_behind(
    events: Seq<MarkupEventView>,
    rules: Seq<RuleView>,
    stamp: Seq<char>,
    close: int,
) -> MarkupEventView {
    let held = state_behind(events, rules, stamp, close as nat);
    MarkupEventView::StartElement {
        name: held.opened.unwrap(),
        attributes: merged_start(events, rules, stamp).attributes,
        namespace: flushed_bindings(held.bindings, held.rules, held.rules.len()),
    }
}

/// The rewritten document, where the description ends for good with the
/// event before `close`: what was written up to there, then what the
/// required rules that are left write from nothing, then the end of the
/// description, then the rest of the document as it was.
pub proof fn lemma_output_behind_the_description(
    events: Seq<MarkupEventView>,
    rules: Seq<RuleView>,
    stamp: Seq<char>,
    close: int,
    at: int,
)
    requires
        description_ends_before(events, rules, stamp, close),
        merged_start(events, rules, stamp).failed.is_none(),
        state_behind(events, rules, stamp, close as nat).opened.is_some(),
        0 <= at < state_behind(events, rules, stamp, close as nat).rules.len(),
        state_behind(events, rules, stamp, close as nat).rules[at].required,
    ensures
        ({
            let held = state_behind(events, rules, stamp, close as nat);
            let earlier = held.rules.subrange(0, at);
            let others = held.rules.subrange(at + 1, held.rules.len() as int);
            rewritten(events, rules, stamp) == Ok::<Seq<MarkupEventView>, QNameView>(
                held.before + seq![opening_behind(events, rules, stamp, close)] + held.after
                    + flushed(earlier, stamp, earlier.len()) + held.rules[at].run(
                    Seq::empty(),
                    stamp,
                ) + flushed(others, stamp, others.len()) + seq![events[close - 1]]
                    + events.subrange(close, events.len() as int),
            )
        }),
        is_description(state_behind(events, rules, stamp, close as nat).opened.unwrap()),
{
    let merged = merged_start(events, rules, stamp);
    let start = pass_start(merged.bindings, active_rules(merged.left, merged.left.len()));
    let held = pass_state(start, events, stamp, close as nat);
    let rule = held.rules[at];
    let before = pass_state(start, events, stamp, (close - 1) as nat);
    assert(held == pass_step(before, events[close - 1], stamp));
    let pending = held.phase->Closing_pending;
    assert(pending == events[close - 1]);
    let earlier = held.rules.subrange(0, at);
    let others = held.rules.subrange(at + 1, held.rules.len() as int);
    let written = rule.run(Seq::empty(), stamp);
    assert(held.rules =~= earlier.push(rule) + others);
    assert(earlier.push(rule) =~= earlier + seq![rule]);
    lemma_flushed_of_both(earlier.push(rule), others, stamp, others.len());
    lemma_flushed_of_prefix(earlier, seq![rule], stamp, earlier.len());
    assert(flushed(held.rules, stamp, held.rules.len()) == flushed(earlier, stamp, earlier.len())
        + written + flushed(others, stamp, others.len()));
    let closed = pass_state(start, events, stamp, (close + 1) as nat);
    assert(closed == pass_step(held, events[close], stamp));
    lemma_rest_is_copied(start, events, stamp, (close + 1) as nat, events.len());
    crate::xmp::twice::lemma_opened_is_description(start, events, stamp, close as nat);
    let state = final_state(events, rules, stamp);
    let output = assembled(state, merged.attributes);
    assert(output =~= held.before + seq![opening_behind(events, rules, stamp, close)] + held.after
        + flushed(earlier, stamp, earlier.len()) + written + flushed(others, stamp, others.len())
        + seq![events[close - 1]] + events.subrange(close, events.len() as int));
}

/// A required rule writes its missing field at the end of the description:
/// if the field of a required rule is absent from a document, no later
/// rule is for the same field, and the description ends for good with the
/// event before `close`, then the rewritten document ends with the element
/// that the rule writes from nothing, then what other required rules write
/// from nothing, then the end of the description, then the rest of the
/// document as it was. All that was written for the events of the
/// description stands before the element. Where the rule has a namespace,
/// the start of the description binds the rule's prefix.
pub proof fn lemma_required_field_is_written_last(
    events: Seq<MarkupEventView>,
    rules: Seq<RuleView>,
    stamp: Seq<char>,
    k: int,
    close: int,
)
    requires
        0 <= k < rules.len(),
        rules[k].required,
        forall|later: int|
            k < later < rules.len() ==> !(#[trigger] rules[later]).matches(rules[k].name()),
        field_absent(events, rules[k]),
        description_ends_before(events, rules, stamp, close),
    ensures
        rewritten(events, rules, stamp) matches Ok(output) ==> is_written_last(
            output,
            events,
            rules[k],
            stamp,
            close,
        ),
{
    let rule = rules[k];
    let merged = merged_start(events, rules, stamp);
    if merged.failed.is_none() {
        lemma_rule_waits(events, rules, stamp, k, close);
        let held = state_behind(events, rules, stamp, close as nat);
        let at = choose|at: int| 0 <= at < held.rules.len() && held.rules[at] == rule;
        lemma_output_behind_the_description(events, rules, stamp, close, at);
        let earlier = held.rules.subrange(0, at);
        let others = held.rules.subrange(at + 1, held.rules.len() as int);
        let written = rule.run(Seq::empty(), stamp);
        let opening = opening_behind(events, rules, stamp, close);
        let lead = held.before + seq![opening] + held.after + flushed(
            earlier,
            stamp,
            earlier.len(),
        );
        let output = rewritten(events, rules, stamp)->Ok_0;
        assert(stands_last(
            output,
            lead,
            written,
            flushed(others, stamp, others.len()),
            events[close - 1],
            events.subrange(close, events.len() as int),
        ));
        if rule.namespace.is_some() {
            lemma_flushed_binds(held.bindings, held.rules, at, held.rules.len());
            assert(output[held.before.len() as int] == opening);
            assert(starts_element(
                output[held.before.len() as int],
                Some(crate::ns::RDF@),
                "Description"@,
            ));
            assert(description_binds(output, rule.prefix));
        }
        assert(is_written_last(output, events, rule, stamp, close));
    } else {
        assert(rewritten(events, rules, stamp) is Err);
    }
}

} // verus!
