//! A required rule writes its missing field once.
//!
//! Rules write elements of their own fields, and inside them list elements
//! of the description framework's vocabulary. A field that lies outside
//! that vocabulary, and that the document lacks, is therefore written by
//! its own rule alone, where the description ends.

use vstd::prelude::*;

use crate::markup::{MarkupEventView, QNameView};
use crate::xmp::laws::{
    description_ends_before, field_absent, lemma_output_behind_the_description, lemma_rule_waits,
    opening_behind, state_behind,
};
use crate::xmp::rewrite::{
    active_rules, field_index, flushed, merged_start, pass_start, pass_state, pass_step,
    rewritten, PassState,
};
use crate::xmp::rule::{render_items, RuleView};
use crate::xmp::starts_element;

verus! {

/// No element of this namespace and local name starts in `events`.
pub open spec fn lacks(
    events: Seq<MarkupEventView>,
    namespace: Option<Seq<char>>,
    local_name: Seq<char>,
) -> bool {
    forall|i: int| 0 <= i < events.len() ==> !starts_element(#[trigger] events[i], namespace, local_name)
}

/// The rule is for the field of this namespace and local name.
pub open spec fn is_for(rule: RuleView, namespace: Option<Seq<char>>, local_name: Seq<char>) -> bool {
    rule.namespace == namespace && rule.local_name == local_name
}

/// At most one of the rules is for the field.
pub open spec fn at_most_one(
    rules: Seq<RuleView>,
    namespace: Option<Seq<char>>,
    local_name: Seq<char>,
) -> bool {
    forall|p: int, q: int|
        0 <= p < q < rules.len() ==> !(is_for(#[trigger] rules[p], namespace, local_name) && is_for(
            #[trigger] rules[q],
            namespace,
            local_name,
        ))
}

/// Exactly one element of this namespace and local name starts in
/// `output`, at `at`.
pub open spec fn starts_once(
    output: Seq<MarkupEventView>,
    namespace: Option<Seq<char>>,
    local_name: Seq<char>,
    at: int,
) -> bool {
    &&& 0 <= at < output.len()
    &&& forall|i: int|
        0 <= i < output.len() ==> (starts_element(#[trigger] output[i], namespace, local_name) <==> i
            == at)
}

/// The items of a list are no elements of a field outside their
/// vocabulary.
proof fn lemma_items_lack(
    values: Seq<Seq<char>>,
    namespace: Option<Seq<char>>,
    local_name: Seq<char>,
)
    requires
        namespace != Some(crate::ns::RDF@),
    ensures
        lacks(render_items(values), namespace, local_name),
    decreases values.len(),
{
    if values.len() > 0 {
        lemma_items_lack(values.drop_last(), namespace, local_name);
    }
}

/// What a rule writes under a name that is not the field's holds no
/// element of the field.
proof fn lemma_run_lacks(
    rule: RuleView,
    input: Seq<MarkupEventView>,
    stamp: Seq<char>,
    namespace: Option<Seq<char>>,
    local_name: Seq<char>,
)
    requires
        namespace != Some(crate::ns::RDF@),
        !rule.element_name(input).is(namespace, local_name),
    ensures
        lacks(rule.run(input, stamp), namespace, local_name),
{
    if rule.action is List {
        lemma_items_lack(rule.action->List_values, namespace, local_name);
    }
}

/// What a rule writes from nothing starts with the element of its field
/// and holds no other.
proof fn lemma_run_starts_once(rule: RuleView, stamp: Seq<char>)
    requires
        rule.namespace != Some(crate::ns::RDF@),
    ensures
        starts_once(rule.run(Seq::empty(), stamp), rule.namespace, rule.local_name, 0),
{
    if rule.action is List {
        lemma_items_lack(rule.action->List_values, rule.namespace, rule.local_name);
    }
}

/// What required rules write that are not for a field holds no element of
/// the field.
proof fn lemma_flushed_lack(
    rules: Seq<RuleView>,
    stamp: Seq<char>,
    namespace: Option<Seq<char>>,
    local_name: Seq<char>,
    n: nat,
)
    requires
        n <= rules.len(),
        namespace != Some(crate::ns::RDF@),
        forall|i: int| 0 <= i < rules.len() ==> !is_for(#[trigger] rules[i], namespace, local_name),
    ensures
        lacks(flushed(rules, stamp, n), namespace, local_name),
    decreases n,
{
    if n > 0 {
        lemma_flushed_lack(rules, stamp, namespace, local_name, (n - 1) as nat);
        assert(!is_for(rules[n - 1], namespace, local_name));
        lemma_run_lacks(rules[n - 1], Seq::empty(), stamp, namespace, local_name);
    }
}

/// Where `field_index` finds no rule, no rule from `from` on is for the
/// name.
proof fn lemma_none_is_for(rules: Seq<RuleView>, name: QNameView, from: int)
    requires
        0 <= from,
        field_index(rules, name, from) >= rules.len(),
    ensures
        forall|at: int| from <= at < rules.len() ==> !(#[trigger] rules[at]).matches(name),
    decreases rules.len() - from,
{
    if from < rules.len() {
        lemma_none_is_for(rules, name, from + 1);
    }
}

/// Of the rules that are applied at most one is for a field, and no rule
/// behind the first `n` is for the field of one of them.
proof fn lemma_active_rules_differ(
    rules: Seq<RuleView>,
    namespace: Option<Seq<char>>,
    local_name: Seq<char>,
    n: nat,
)
    requires
        n <= rules.len(),
    ensures
        at_most_one(active_rules(rules, n), namespace, local_name),
        forall|p: int, later: int|
            0 <= p < active_rules(rules, n).len() && n <= later < rules.len() && is_for(
                #[trigger] active_rules(rules, n)[p],
                namespace,
                local_name,
            ) ==> !is_for(#[trigger] rules[later], namespace, local_name),
    decreases n,
{
    if n > 0 {
        lemma_active_rules_differ(rules, namespace, local_name, (n - 1) as nat);
        let head = active_rules(rules, (n - 1) as nat);
        let rule = rules[n - 1];
        if active_rules(rules, n) != head {
            lemma_none_is_for(rules, rule.name(), n as int);
            let all = head.push(rule);
            assert forall|p: int, later: int|
                0 <= p < all.len() && n <= later < rules.len() && is_for(
                    #[trigger] all[p],
                    namespace,
                    local_name,
                ) implies !is_for(#[trigger] rules[later], namespace, local_name) by {
                if p < head.len() {
                    assert(all[p] == head[p]);
                } else {
                    assert(!rules[later].matches(rule.name()));
                }
            }
            assert forall|p: int, q: int| 0 <= p < q < all.len() implies !(is_for(
                #[trigger] all[p],
                namespace,
                local_name,
            ) && is_for(#[trigger] all[q], namespace, local_name)) by {
                assert(all[p] == head[p]);
                if q < head.len() {
                    assert(all[q] == head[q]);
                } else if is_for(head[p], namespace, local_name) {
                    assert(!is_for(rules[n - 1], namespace, local_name));
                }
            }
        }
    }
}

/// Two lists that hold no element of a field hold none when one is put
/// behind the other.
proof fn lemma_both_lack(
    a: Seq<MarkupEventView>,
    b: Seq<MarkupEventView>,
    namespace: Option<Seq<char>>,
    local_name: Seq<char>,
)
    requires
        lacks(a, namespace, local_name),
        lacks(b, namespace, local_name),
    ensures
        lacks(a + b, namespace, local_name),
{
    assert forall|i: int| 0 <= i < (a + b).len() implies !starts_element(
        #[trigger] (a + b)[i],
        namespace,
        local_name,
    ) by {
        if i < a.len() {
            assert((a + b)[i] == a[i]);
        } else {
            assert((a + b)[i] == b[i - a.len()]);
        }
    }
}

/// What a pass has written up to the end of the description holds no
/// element of a field that the document lacks, and at most one of the
/// rules that are left is for the field.
spec fn writes_none(state: PassState, namespace: Option<Seq<char>>, local_name: Seq<char>) -> bool {
    &&& lacks(state.before, namespace, local_name)
    &&& lacks(state.after, namespace, local_name)
    &&& at_most_one(state.rules, namespace, local_name)
}

/// A pass writes no element of a field that the document lacks, as long
/// as the description is not closed.
proof fn lemma_pass_writes_none(
    start: PassState,
    events: Seq<MarkupEventView>,
    stamp: Seq<char>,
    namespace: Option<Seq<char>>,
    local_name: Seq<char>,
    n: nat,
)
    requires
        n <= events.len(),
        namespace != Some(crate::ns::RDF@),
        lacks(events, namespace, local_name),
        start == pass_start(start.bindings, start.rules),
        at_most_one(start.rules, namespace, local_name),
    ensures
        !(pass_state(start, events, stamp, n).phase is After) ==> writes_none(
            pass_state(start, events, stamp, n),
            namespace,
            local_name,
        ),
    decreases n,
{
    if n > 0 {
        lemma_pass_writes_none(start, events, stamp, namespace, local_name, (n - 1) as nat);
        let state = pass_state(start, events, stamp, (n - 1) as nat);
        let event = events[n - 1];
        let behind = pass_step(state, event, stamp);
        assert(!starts_element(event, namespace, local_name));
        if !(behind.phase is After) {
            assert(lacks(seq![event], namespace, local_name));
            lemma_both_lack(state.before, seq![event], namespace, local_name);
            lemma_both_lack(state.after, seq![event], namespace, local_name);
            assert(state.before.push(event) =~= state.before + seq![event]);
            assert(state.after.push(event) =~= state.after + seq![event]);
            if state.phase is Inside && event is StartElement {
                let name = event->StartElement_name;
                let at = field_index(state.rules, name, 0);
                crate::xmp::laws::lemma_field_index(state.rules, name, 0);
                if !crate::xmp::is_description(name) && state.phase->Inside_level == 1 && at
                    < state.rules.len() {
                    let rule = state.rules[at];
                    assert(rule.element_name(seq![event]) == name);
                    lemma_run_lacks(rule, seq![event], stamp, namespace, local_name);
                    lemma_both_lack(
                        state.after,
                        rule.run(seq![event], stamp),
                        namespace,
                        local_name,
                    );
                    assert(behind.after == state.after + rule.run(seq![event], stamp));
                    assert(behind.rules == state.rules.remove(at));
                    assert forall|p: int, q: int| 0 <= p < q < behind.rules.len() implies !(is_for(
                        #[trigger] behind.rules[p],
                        namespace,
                        local_name,
                    ) && is_for(#[trigger] behind.rules[q], namespace, local_name)) by {
                        let from = if p < at {
                            p
                        } else {
                            p + 1
                        };
                        let to = if q < at {
                            q
                        } else {
                            q + 1
                        };
                        assert(behind.rules[p] == state.rules[from]);
                        assert(behind.rules[q] == state.rules[to]);
                    }
                } else {
                    assert(behind.after == state.after.push(event));
                }
            }
        }
    }
}

/// A required rule writes its missing field once: if the field of a
/// required rule lies outside the vocabulary of the description framework
/// and is absent from a document, no later rule is for the same field, and
/// the description ends for good with the event before `close`, then
/// exactly one element of the field starts in the rewritten document.
pub proof fn lemma_required_field_is_written_once(
    events: Seq<MarkupEventView>,
    rules: Seq<RuleView>,
    stamp: Seq<char>,
    k: int,
    close: int,
)
    requires
        0 <= k < rules.len(),
        rules[k].required,
        rules[k].namespace != Some(crate::ns::RDF@),
        forall|later: int|
            k < later < rules.len() ==> !(#[trigger] rules[later]).matches(rules[k].name()),
        field_absent(events, rules[k]),
        description_ends_before(events, rules, stamp, close),
    ensures
        rewritten(events, rules, stamp) matches Ok(output) ==> exists|at: int| #[trigger]
            starts_once(output, rules[k].namespace, rules[k].local_name, at),
{
    let rule = rules[k];
    let namespace = rule.namespace;
    let local_name = rule.local_name;
    let merged = merged_start(events, rules, stamp);
    if merged.failed.is_none() {
        lemma_rule_waits(events, rules, stamp, k, close);
        let start = pass_start(merged.bindings, active_rules(merged.left, merged.left.len()));
        let held = state_behind(events, rules, stamp, close as nat);
        let at = choose|at: int| 0 <= at < held.rules.len() && held.rules[at] == rule;
        lemma_output_behind_the_description(events, rules, stamp, close, at);
        lemma_active_rules_differ(merged.left, namespace, local_name, merged.left.len());
        assert(lacks(events, namespace, local_name));
        lemma_pass_writes_none(start, events, stamp, namespace, local_name, close as nat);
        let earlier = held.rules.subrange(0, at);
        let others = held.rules.subrange(at + 1, held.rules.len() as int);
        assert forall|i: int| 0 <= i < earlier.len() implies !is_for(
            #[trigger] earlier[i],
            namespace,
            local_name,
        ) by {
            assert(earlier[i] == held.rules[i]);
        }
        assert forall|i: int| 0 <= i < others.len() implies !is_for(
            #[trigger] others[i],
            namespace,
            local_name,
        ) by {
            assert(others[i] == held.rules[at + 1 + i]);
        }
        lemma_flushed_lack(earlier, stamp, namespace, local_name, earlier.len());
        lemma_flushed_lack(others, stamp, namespace, local_name, others.len());
        lemma_run_starts_once(rule, stamp);
        let opening = opening_behind(events, rules, stamp, close);
        let written = rule.run(Seq::empty(), stamp);
        let lead = held.before + seq![opening] + held.after + flushed(
            earlier,
            stamp,
            earlier.len(),
        );
        let tail = flushed(others, stamp, others.len()) + seq![events[close - 1]]
            + events.subrange(close, events.len() as int);
        let output = rewritten(events, rules, stamp)->Ok_0;
        assert(output =~= lead + written + tail);
        assert(lacks(lead, namespace, local_name));
        assert(lacks(tail, namespace, local_name));
        assert forall|i: int| 0 <= i < output.len() implies (starts_element(
            #[trigger] output[i],
            namespace,
            local_name,
        ) <==> i == lead.len()) by {
            if i < lead.len() {
                assert(output[i] == lead[i]);
            } else if i < lead.len() + written.len() {
                assert(output[i] == written[i - lead.len()]);
            } else {
                assert(output[i] == tail[i - lead.len() - written.len()]);
            }
        }
        assert(starts_once(output, namespace, local_name, lead.len() as int));
    }
}

} // verus!
