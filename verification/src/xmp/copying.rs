//! Rewriting without rules copies a document that holds one description.
//!
//! Such a rewrite has nothing to replace, nothing to merge and nothing to
//! add: what comes back is the document, event for event, without the start
//! of the document.

use vstd::prelude::*;

use crate::markup::MarkupEventView;
use crate::xmp::keeping::plain_phase;
use crate::xmp::rewrite::{
    active_rules, assembled, field_index, final_state, flushed, flushed_bindings, gather_step,
    gathered_from, merged_start, nothing_gathered, pass_start, pass_state, pass_step, rewritten,
    PassState, Phase,
};
use crate::xmp::rule::RuleView;
use crate::xmp::{first_start, starts_element};

verus! {

/// The first `n` events without the starts of the document among them.
pub open spec fn without_document_start(events: Seq<MarkupEventView>, n: nat) -> Seq<
    MarkupEventView,
>
    decreases n,
{
    if n == 0 {
        Seq::empty()
    } else if events[n - 1] is StartDocument {
        without_document_start(events, (n - 1) as nat)
    } else {
        without_document_start(events, (n - 1) as nat).push(events[n - 1])
    }
}

/// The index of the first event that starts a description element.
pub open spec fn description_start(events: Seq<MarkupEventView>) -> int {
    first_start(events, Some(crate::ns::RDF@), "Description"@, 0)
}

/// Exactly one description element starts in `events`.
pub open spec fn has_one_description(events: Seq<MarkupEventView>) -> bool {
    &&& description_start(events) < events.len()
    &&& forall|i: int|
        0 <= i < events.len() && starts_element(
            #[trigger] events[i],
            Some(crate::ns::RDF@),
            "Description"@,
        ) ==> i == description_start(events)
}

/// What is gathered from a document with one description is what the start
/// of that description holds.
proof fn lemma_gathered_from_one(events: Seq<MarkupEventView>, n: nat)
    requires
        n <= events.len(),
        has_one_description(events),
    ensures
        n <= description_start(events) ==> gathered_from(events, n) == nothing_gathered(),
        n > description_start(events) ==> gathered_from(events, n).attributes
            == events[description_start(events)]->StartElement_attributes && gathered_from(
            events,
            n,
        ).bindings == events[description_start(events)]->StartElement_namespace,
    decreases n,
{
    let first = description_start(events);
    crate::xmp::laws::lemma_first_start(events, Some(crate::ns::RDF@), "Description"@, 0);
    if n > 0 {
        lemma_gathered_from_one(events, (n - 1) as nat);
        let before = gathered_from(events, (n - 1) as nat);
        let event = events[n - 1];
        assert(gathered_from(events, n) == gather_step(before, event));
        if n - 1 < first {
            assert(!starts_element(event, Some(crate::ns::RDF@), "Description"@));
        } else if n - 1 == first {
            assert(before.attributes + event->StartElement_attributes
                =~= event->StartElement_attributes);
            assert(crate::markup::merge_bindings(before.bindings, event->StartElement_namespace)
                =~= event->StartElement_namespace);
        } else {
            assert(!starts_element(event, Some(crate::ns::RDF@), "Description"@));
        }
    }
}

/// What a pass without rules has written of a document with one
/// description, behind the first `n` events.
spec fn copies(state: PassState, events: Seq<MarkupEventView>, n: nat) -> bool {
    let first = description_start(events);
    &&& state.rules.len() == 0
    &&& n <= first ==> {
        &&& state.phase is Before
        &&& state.opened.is_none()
        &&& state.before == without_document_start(events, n)
        &&& state.after.len() == 0
    }
    &&& n > first ==> {
        &&& state.opened == Some(events[first]->StartElement_name)
        &&& state.before == without_document_start(events, first as nat)
        &&& match state.phase {
            Phase::Inside { .. } => state.after == events.subrange(first + 1, n as int),
            Phase::After => state.after == events.subrange(first + 1, n as int),
            Phase::Closing { pending } => pending == events[n - 1] && state.after
                == events.subrange(first + 1, n - 1),
            _ => false,
        }
    }
}

/// A pass without rules copies a document with one description.
proof fn lemma_pass_copies(
    start: PassState,
    events: Seq<MarkupEventView>,
    stamp: Seq<char>,
    n: nat,
)
    requires
        n <= events.len(),
        has_one_description(events),
        start == pass_start(start.bindings, Seq::empty()),
    ensures
        copies(pass_state(start, events, stamp, n), events, n),
        pass_state(start, events, stamp, n).bindings == start.bindings,
    decreases n,
{
    let first = description_start(events);
    crate::xmp::laws::lemma_first_start(events, Some(crate::ns::RDF@), "Description"@, 0);
    if n > 0 {
        lemma_pass_copies(start, events, stamp, (n - 1) as nat);
        let state = pass_state(start, events, stamp, (n - 1) as nat);
        let event = events[n - 1];
        let behind = pass_step(state, event, stamp);
        if n - 1 < first {
            assert(!starts_element(event, Some(crate::ns::RDF@), "Description"@));
        } else if n - 1 == first {
            assert(behind.after =~= events.subrange(first + 1, n as int));
        } else {
            assert(!starts_element(event, Some(crate::ns::RDF@), "Description"@));
            match state.phase {
                Phase::Inside { level } => {
                    if event is StartElement {
                        assert(field_index(state.rules, event->StartElement_name, 0) == 0);
                    }
                    if behind.phase is Closing {
                        assert(behind.after =~= events.subrange(first + 1, n - 1));
                    } else {
                        assert(behind.after =~= events.subrange(first + 1, n as int));
                    }
                },
                Phase::Closing { pending } => {
                    assert(flushed(state.rules, stamp, 0) =~= Seq::<MarkupEventView>::empty());
                    assert(flushed_bindings(state.bindings, state.rules, 0) == state.bindings);
                    assert(behind.after =~= events.subrange(first + 1, n as int));
                },
                Phase::After => {
                    assert(behind.after =~= events.subrange(first + 1, n as int));
                },
                _ => {},
            }
        }
    }
}

/// Rewriting without rules copies a document that holds one description:
/// where exactly one description element starts in a document, and its end
/// is not the last event, the rewritten document is the document without
/// the starts of the document that stand before the description. Event for
/// event it is the same, the start of the description too.
pub proof fn lemma_no_rules_copy_the_document(events: Seq<MarkupEventView>, stamp: Seq<char>)
    requires
        has_one_description(events),
        !(plain_phase(events, events.len()) is Closing),
    ensures
        rewritten(events, Seq::empty(), stamp) == Ok::<
            Seq<MarkupEventView>,
            crate::markup::QNameView,
        >(
            without_document_start(events, description_start(events) as nat) + events.subrange(
                description_start(events),
                events.len() as int,
            ),
        ),
{
    let rules = Seq::<RuleView>::empty();
    let first = description_start(events);
    let merged = merged_start(events, rules, stamp);
    assert(merged.left.len() == 0);
    assert(active_rules(merged.left, 0) =~= Seq::<RuleView>::empty());
    let start = pass_start(merged.bindings, Seq::empty());
    let state = final_state(events, rules, stamp);
    crate::xmp::laws::lemma_first_start(events, Some(crate::ns::RDF@), "Description"@, 0);
    lemma_gathered_from_one(events, events.len());
    lemma_pass_copies(start, events, stamp, events.len());
    crate::xmp::keeping::lemma_phase_without_rules(start, events, stamp, events.len());
    let opening = MarkupEventView::StartElement {
        name: state.opened.unwrap(),
        attributes: merged.attributes,
        namespace: state.bindings,
    };
    assert(opening == events[first]);
    assert(assembled(state, merged.attributes) =~= without_document_start(events, first as nat)
        + events.subrange(first, events.len() as int));
}

/// Rewriting without rules gives a document back as it was, without its
/// first event: where the document starts with its first event and nowhere
/// else before the description, exactly one description element starts in
/// it, and the end of that is not the last event.
pub proof fn lemma_no_rules_drop_the_document_start(
    events: Seq<MarkupEventView>,
    stamp: Seq<char>,
)
    requires
        has_one_description(events),
        !(plain_phase(events, events.len()) is Closing),
        events[0] is StartDocument,
        forall|i: int|
            0 < i < description_start(events) ==> !(#[trigger] events[i] is StartDocument),
    ensures
        rewritten(events, Seq::empty(), stamp) == Ok::<
            Seq<MarkupEventView>,
            crate::markup::QNameView,
        >(events.subrange(1, events.len() as int)),
{
    let first = description_start(events);
    crate::xmp::laws::lemma_first_start(events, Some(crate::ns::RDF@), "Description"@, 0);
    lemma_no_rules_copy_the_document(events, stamp);
    lemma_without_the_first_event(events, first as nat);
    assert(events.subrange(1, first) + events.subrange(first, events.len() as int)
        =~= events.subrange(1, events.len() as int));
}

/// Where the start of the document is the first event and the only one of
/// its kind among the first `n`, leaving it out leaves the rest.
proof fn lemma_without_the_first_event(events: Seq<MarkupEventView>, n: nat)
    requires
        0 < n <= events.len(),
        events[0] is StartDocument,
        forall|i: int| 0 < i < n ==> !(#[trigger] events[i] is StartDocument),
    ensures
        without_document_start(events, n) == events.subrange(1, n as int),
    decreases n,
{
    if n == 1 {
        assert(without_document_start(events, 0) =~= Seq::<MarkupEventView>::empty());
        assert(events.subrange(1, 1) =~= Seq::<MarkupEventView>::empty());
    } else {
        lemma_without_the_first_event(events, (n - 1) as nat);
        assert(events.subrange(1, n as int) =~= events.subrange(1, n - 1).push(events[n - 1]));
    }
}

} // verus!
