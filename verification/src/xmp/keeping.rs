//! Rewriting without rules keeps the fields of a document.
//!
//! Reading a field is looked at here as a scan that goes through the events
//! one by one. Rewriting without rules leaves out only the start of the
//! document and the ends of the description that it writes into, and such
//! a scan does not see them as long as none of them lies inside the element
//! of the field. A description that lies as a whole inside that element is
//! written as it is.

use vstd::prelude::*;

use crate::markup::{AttributeView, MarkupEventView};
use crate::xmp::rewrite::{
    active_rules, assembled, field_index, final_state, flushed, flushed_bindings,
    gather_step, gathered_from, merged_start, pass_start, pass_state, pass_step, rewritten,
    PassState, Phase,
};
use crate::xmp::rule::RuleView;
use crate::xmp::{
    attribute_field, attribute_value, bag_field, depth_behind, element_field, first_start,
    is_description, scalar_field, starts_element, subtree_len, texts_between,
};

verus! {

/// How far reading a field has come.
#[allow(inconsistent_fields)]
pub enum FieldScan {
    /// No element of the field was seen.
    Seeking,
    /// The first element of the field is open.
    Open {
        /// Nothing was seen behind the start of the element.
        first: bool,
        /// The value that the element gives the field.
        value: Option<Seq<char>>,
        /// How many elements are open, the element of the field counted in.
        depth: int,
        /// The texts that were seen inside the element.
        texts: Seq<Seq<char>>,
    },
    /// The first element of the field has ended.
    Closed { value: Option<Seq<char>>, texts: Seq<Seq<char>> },
}

/// The value that the event behind the start of an element gives a field.
pub open spec fn value_behind_start(event: MarkupEventView) -> Option<Seq<char>> {
    match event {
        MarkupEventView::Characters(text) => Some(text),
        MarkupEventView::EndElement { .. } => Some(Seq::empty()),
        _ => None,
    }
}

/// The texts seen, with the text of one more event.
pub open spec fn with_text(texts: Seq<Seq<char>>, event: MarkupEventView) -> Seq<Seq<char>> {
    match event {
        MarkupEventView::Characters(text) => texts.push(text),
        _ => texts,
    }
}

/// The scan of the field `local_name` behind one more event.
pub open spec fn scan_step(scan: FieldScan, event: MarkupEventView, local_name: Seq<char>) -> FieldScan {
    match scan {
        FieldScan::Seeking => if starts_element(event, Some(crate::ns::ACDSEE@), local_name) {
            FieldScan::Open { first: true, value: None, depth: 1, texts: Seq::empty() }
        } else {
            FieldScan::Seeking
        },
        FieldScan::Open { first, value, depth, texts } => {
            let value = if first {
                value_behind_start(event)
            } else {
                value
            };
            let texts = with_text(texts, event);
            if depth_behind(event, depth) <= 0 {
                FieldScan::Closed { value, texts }
            } else {
                FieldScan::Open { first: false, value, depth: depth_behind(event, depth), texts }
            }
        },
        FieldScan::Closed { .. } => scan,
    }
}

/// The scan of a field behind the first `n` events.
pub open spec fn scan_of(events: Seq<MarkupEventView>, local_name: Seq<char>, n: nat) -> FieldScan
    decreases n,
{
    if n == 0 {
        FieldScan::Seeking
    } else {
        scan_step(scan_of(events, local_name, (n - 1) as nat), events[n - 1], local_name)
    }
}

/// The scan that starts as `scan` before the event at `from`, behind the
/// last event.
pub open spec fn scan_on(
    scan: FieldScan,
    events: Seq<MarkupEventView>,
    local_name: Seq<char>,
    from: int,
) -> FieldScan
    decreases events.len() - from,
{
    if from < 0 || from >= events.len() {
        scan
    } else {
        scan_on(scan_step(scan, events[from], local_name), events, local_name, from + 1)
    }
}

/// The value that a scan has found for a field that holds one value.
pub open spec fn scan_value(scan: FieldScan) -> Option<Seq<char>> {
    match scan {
        FieldScan::Seeking => None,
        FieldScan::Open { value, .. } => value,
        FieldScan::Closed { value, .. } => value,
    }
}

/// The values that a scan has found for a field that holds many.
pub open spec fn scan_texts(scan: FieldScan) -> Seq<Seq<char>> {
    match scan {
        FieldScan::Seeking => Seq::empty(),
        FieldScan::Open { texts, .. } => texts,
        FieldScan::Closed { texts, .. } => texts,
    }
}

/// An event at which a description element starts or ends, or the document
/// starts.
pub open spec fn is_boundary(event: MarkupEventView) -> bool {
    match event {
        MarkupEventView::StartDocument { .. } => true,
        MarkupEventView::StartElement { name, .. } => is_description(name),
        MarkupEventView::EndElement { name } => is_description(name),
        _ => false,
    }
}

/// The phase in which a pass without rules is behind the first `n` events.
pub open spec fn plain_phase(events: Seq<MarkupEventView>, n: nat) -> Phase {
    pass_state(
        pass_start(crate::markup::no_bindings(), Seq::empty()),
        events,
        Seq::empty(),
        n,
    ).phase
}

/// The event at `i` ends the description that a pass writes into: it is
/// the end of a description element, read where no child of the
/// description is open.
pub open spec fn closes_description(events: Seq<MarkupEventView>, i: int) -> bool {
    &&& 0 <= i < events.len()
    &&& events[i] matches MarkupEventView::EndElement { name }
    &&& is_description(name)
    &&& plain_phase(events, i as nat) matches Phase::Inside { level }
    &&& level <= 1
}

/// While the first element of a field is open, the document does not start,
/// and the description that a pass writes into does not end. A description
/// may start and end inside the element.
pub open spec fn field_stands_clear(events: Seq<MarkupEventView>, local_name: Seq<char>) -> bool {
    forall|i: int|
        0 <= i < events.len() && (#[trigger] scan_of(events, local_name, i as nat)) is Open
            ==> !(events[i] is StartDocument) && !closes_description(events, i)
}

/// No description element behind the first gives a field as an attribute.
pub open spec fn later_descriptions_lack(events: Seq<MarkupEventView>, local_name: Seq<char>) -> bool {
    forall|i: int|
        first_start(events, Some(crate::ns::RDF@), "Description"@, 0) < i < events.len()
            && starts_element(#[trigger] events[i], Some(crate::ns::RDF@), "Description"@)
            ==> attribute_value(
            events[i]->StartElement_attributes,
            Some(crate::ns::ACDSEE@),
            local_name,
            0,
        ).is_none()
}

/// The two vocabularies have different namespaces.
pub proof fn lemma_namespaces_differ()
    ensures
        crate::ns::RDF@ != crate::ns::ACDSEE@,
{
    reveal_strlit("http://www.w3.org/1999/02/22-rdf-syntax-ns#");
    reveal_strlit("http://ns.acdsee.com/iptc/1.0/");
    assert(crate::ns::RDF@.len() != crate::ns::ACDSEE@.len());
}

/// A boundary does not start an element of the catalog's vocabulary.
proof fn lemma_boundary_is_no_field(event: MarkupEventView, local_name: Seq<char>)
    requires
        is_boundary(event),
    ensures
        !starts_element(event, Some(crate::ns::ACDSEE@), local_name),
{
    lemma_namespaces_differ();
}

/// The scan behind all events is the scan that goes on from any point.
proof fn lemma_scan_on(events: Seq<MarkupEventView>, local_name: Seq<char>, n: nat)
    requires
        n <= events.len(),
    ensures
        scan_on(scan_of(events, local_name, n), events, local_name, n as int) == scan_of(
            events,
            local_name,
            events.len(),
        ),
    decreases events.len() - n,
{
    if n < events.len() {
        lemma_scan_on(events, local_name, n + 1);
    }
}

/// A scan that has closed stays as it is.
proof fn lemma_closed_stays(
    scan: FieldScan,
    events: Seq<MarkupEventView>,
    local_name: Seq<char>,
    from: int,
)
    requires
        scan is Closed,
    ensures
        scan_on(scan, events, local_name, from) == scan,
    decreases events.len() - from,
{
    if 0 <= from < events.len() {
        lemma_closed_stays(scan, events, local_name, from + 1);
    }
}

/// The texts among `events[from..to]` are the text of the first of them,
/// and the texts among the others.
proof fn lemma_texts_from_front(events: Seq<MarkupEventView>, from: int, to: int)
    requires
        0 <= from < to <= events.len(),
    ensures
        texts_between(events, from, to) == with_text(Seq::empty(), events[from]) + texts_between(
            events,
            from + 1,
            to,
        ),
    decreases to - from,
{
    if from + 1 < to {
        lemma_texts_from_front(events, from, to - 1);
        assert(texts_between(events, from, to) =~= with_text(Seq::empty(), events[from])
            + texts_between(events, from + 1, to));
    } else {
        assert(texts_between(events, from, from) =~= Seq::<Seq<char>>::empty());
        assert(texts_between(events, from + 1, to) =~= Seq::<Seq<char>>::empty());
        assert(texts_between(events, from, to) =~= with_text(Seq::empty(), events[from]));
    }
}

/// What a scan finds that starts inside the element of the field.
proof fn lemma_open_scan(
    first: bool,
    value: Option<Seq<char>>,
    depth: int,
    texts: Seq<Seq<char>>,
    events: Seq<MarkupEventView>,
    local_name: Seq<char>,
    from: int,
)
    requires
        0 <= from <= events.len(),
        depth > 0,
    ensures
        scan_texts(
            scan_on(FieldScan::Open { first, value, depth, texts }, events, local_name, from),
        ) == texts + texts_between(events, from, from + subtree_len(events, from, depth)),
        scan_value(
            scan_on(FieldScan::Open { first, value, depth, texts }, events, local_name, from),
        ) == if !first {
            value
        } else if from < events.len() {
            value_behind_start(events[from])
        } else {
            value
        },
    decreases events.len() - from,
{
    let scan = FieldScan::Open { first, value, depth, texts };
    if from < events.len() {
        let event = events[from];
        let next = scan_step(scan, event, local_name);
        let len = subtree_len(events, from, depth);
        crate::xmp::lemma_subtree_len(events, from, depth);
        crate::xmp::lemma_subtree_len(events, from + 1, depth_behind(event, depth));
        lemma_texts_from_front(events, from, from + len);
        if depth_behind(event, depth) <= 0 {
            lemma_closed_stays(next, events, local_name, from + 1);
            assert(texts_between(events, from + 1, from + 1) =~= Seq::<Seq<char>>::empty());
            assert(with_text(texts, event) =~= texts + with_text(Seq::empty(), event));
        } else {
            let seen = with_text(texts, event);
            let found = if first {
                value_behind_start(event)
            } else {
                value
            };
            lemma_open_scan(
                false,
                found,
                depth_behind(event, depth),
                seen,
                events,
                local_name,
                from + 1,
            );
            assert(seen + texts_between(events, from + 1, from + len) =~= texts + (with_text(
                Seq::empty(),
                event,
            ) + texts_between(events, from + 1, from + len)));
        }
    } else {
        assert(texts_between(events, from, from) =~= Seq::<Seq<char>>::empty());
        assert(texts + Seq::<Seq<char>>::empty() =~= texts);
    }
}

/// A scan that seeks goes on behind the first element of the field.
proof fn lemma_seeking_scan(events: Seq<MarkupEventView>, local_name: Seq<char>, from: int)
    requires
        0 <= from <= events.len(),
    ensures
        scan_on(FieldScan::Seeking, events, local_name, from) == if first_start(
            events,
            Some(crate::ns::ACDSEE@),
            local_name,
            from,
        ) < events.len() {
            scan_on(
                FieldScan::Open { first: true, value: None, depth: 1, texts: Seq::empty() },
                events,
                local_name,
                first_start(events, Some(crate::ns::ACDSEE@), local_name, from) + 1,
            )
        } else {
            FieldScan::Seeking
        },
    decreases events.len() - from,
{
    if from < events.len() {
        if !starts_element(events[from], Some(crate::ns::ACDSEE@), local_name) {
            lemma_seeking_scan(events, local_name, from + 1);
        }
    }
}

/// Reading a field gives what a scan through all the events finds.
pub proof fn lemma_reading_is_a_scan(events: Seq<MarkupEventView>, local_name: Seq<char>)
    ensures
        element_field(events, local_name) == scan_value(
            scan_of(events, local_name, events.len()),
        ),
        bag_field(events, local_name) == scan_texts(scan_of(events, local_name, events.len())),
{
    lemma_scan_on(events, local_name, 0);
    lemma_seeking_scan(events, local_name, 0);
    let at = first_start(events, Some(crate::ns::ACDSEE@), local_name, 0);
    crate::xmp::laws::lemma_first_start(events, Some(crate::ns::ACDSEE@), local_name, 0);
    if at < events.len() {
        lemma_open_scan(true, None, 1, Seq::empty(), events, local_name, at + 1);
        assert(Seq::<Seq<char>>::empty() + texts_between(
            events,
            at + 1,
            at + 1 + subtree_len(events, at + 1, 1),
        ) =~= texts_between(events, at + 1, at + 1 + subtree_len(events, at + 1, 1)));
    }
}

/// The scan behind the first events of a list does not depend on what
/// follows them.
proof fn lemma_scan_of_prefix(
    events: Seq<MarkupEventView>,
    more: Seq<MarkupEventView>,
    local_name: Seq<char>,
    n: nat,
)
    requires
        n <= events.len(),
    ensures
        scan_of(events + more, local_name, n) == scan_of(events, local_name, n),
    decreases n,
{
    if n > 0 {
        lemma_scan_of_prefix(events, more, local_name, (n - 1) as nat);
        assert((events + more)[n - 1] == events[n - 1]);
    }
}

/// The scan behind a list with one more event.
proof fn lemma_scan_of_push(
    events: Seq<MarkupEventView>,
    event: MarkupEventView,
    local_name: Seq<char>,
)
    ensures
        scan_of(events.push(event), local_name, events.len() + 1) == scan_step(
            scan_of(events, local_name, events.len()),
            event,
            local_name,
        ),
{
    lemma_scan_of_prefix(events, seq![event], local_name, events.len());
    assert(events.push(event) =~= events + seq![event]);
}

/// Outside the element of a field, a scan does not see a boundary.
proof fn lemma_boundary_is_unseen(scan: FieldScan, event: MarkupEventView, local_name: Seq<char>)
    requires
        !(scan is Open),
        is_boundary(event),
    ensures
        scan_step(scan, event, local_name) == scan,
{
    lemma_boundary_is_no_field(event, local_name);
}

/// A scan takes the starts of two elements of one name alike.
proof fn lemma_starts_scan_alike(
    scan: FieldScan,
    a: MarkupEventView,
    b: MarkupEventView,
    local_name: Seq<char>,
)
    requires
        a is StartElement,
        b is StartElement,
        a->StartElement_name == b->StartElement_name,
    ensures
        scan_step(scan, a, local_name) == scan_step(scan, b, local_name),
{
}

/// A pass without rules goes through the same phases whatever prefixes are
/// bound and whatever the time is, and binds no prefix.
pub proof fn lemma_phase_without_rules(
    start: PassState,
    events: Seq<MarkupEventView>,
    stamp: Seq<char>,
    n: nat,
)
    requires
        n <= events.len(),
        start == pass_start(start.bindings, Seq::empty()),
    ensures
        pass_state(start, events, stamp, n) == (PassState {
            bindings: start.bindings,
            ..pass_state(
                pass_start(crate::markup::no_bindings(), Seq::empty()),
                events,
                Seq::empty(),
                n,
            )
        }),
        pass_state(start, events, stamp, n).rules.len() == 0,
        pass_state(start, events, stamp, n).phase == plain_phase(events, n),
    decreases n,
{
    if n > 0 {
        lemma_phase_without_rules(start, events, stamp, (n - 1) as nat);
        let plain = pass_start(crate::markup::no_bindings(), Seq::empty());
        let a = pass_state(start, events, stamp, (n - 1) as nat);
        let b = pass_state(plain, events, Seq::empty(), (n - 1) as nat);
        lemma_no_description_before(plain, events, Seq::empty(), (n - 1) as nat);
        let event = events[n - 1];
        match a.phase {
            Phase::Inside { level } => {
                if event is StartElement {
                    assert(field_index(a.rules, event->StartElement_name, 0) == 0);
                    assert(field_index(b.rules, event->StartElement_name, 0) == 0);
                }
            },
            Phase::Closing { pending } => {
                assert(flushed(a.rules, stamp, 0) =~= Seq::<MarkupEventView>::empty());
                assert(flushed(b.rules, Seq::empty(), 0) =~= Seq::<MarkupEventView>::empty());
                assert(flushed_bindings(a.bindings, a.rules, 0) == a.bindings);
                assert(flushed_bindings(b.bindings, b.rules, 0) == b.bindings);
                assert(a.rules =~= Seq::<RuleView>::empty());
                assert(b.rules =~= Seq::<RuleView>::empty());
            },
            _ => {},
        }
    }
}

/// The whole scan of what a pass has written.
spec fn scan_written(state: PassState, attributes: Seq<AttributeView>, local_name: Seq<char>) -> FieldScan {
    scan_of(assembled(state, attributes), local_name, assembled(state, attributes).len())
}

/// A pass without rules has written what a scan of the field reads as it
/// reads the events that the pass has read.
spec fn keeps_scan(
    state: PassState,
    attributes: Seq<AttributeView>,
    events: Seq<MarkupEventView>,
    local_name: Seq<char>,
    n: nat,
) -> bool {
    &&& state.rules.len() == 0
    &&& !(state.phase is Replacing)
    &&& state.phase is Before <==> state.opened.is_none()
    &&& state.phase is Before ==> state.after.len() == 0
    &&& state.opened matches Some(name) ==> is_description(name)
    &&& state.phase matches Phase::Closing { pending } ==> is_boundary(pending) && !(scan_of(
        events,
        local_name,
        n,
    ) is Open)
    &&& state.phase == plain_phase(events, n)
    &&& scan_written(state, attributes, local_name) == scan_of(events, local_name, n)
}

/// Writing one more event behind the start of the description.
proof fn lemma_written_push(
    state: PassState,
    attributes: Seq<AttributeView>,
    event: MarkupEventView,
    local_name: Seq<char>,
)
    requires
        state.opened.is_some(),
    ensures
        scan_written(PassState { after: state.after.push(event), ..state }, attributes, local_name)
            == scan_step(scan_written(state, attributes, local_name), event, local_name),
{
    let behind = PassState { after: state.after.push(event), ..state };
    assert(assembled(behind, attributes) =~= assembled(state, attributes).push(event));
    lemma_scan_of_push(assembled(state, attributes), event, local_name);
}

/// A pass without rules keeps the scan of a field that stands clear.
proof fn lemma_pass_keeps_scan(
    start: PassState,
    attributes: Seq<AttributeView>,
    events: Seq<MarkupEventView>,
    stamp: Seq<char>,
    local_name: Seq<char>,
    n: nat,
)
    requires
        n <= events.len(),
        field_stands_clear(events, local_name),
        start == pass_start(start.bindings, Seq::empty()),
    ensures
        keeps_scan(pass_state(start, events, stamp, n), attributes, events, local_name, n),
    decreases n,
{
    if n == 0 {
        assert(assembled(start, attributes) =~= Seq::<MarkupEventView>::empty());
    } else {
        lemma_pass_keeps_scan(start, attributes, events, stamp, local_name, (n - 1) as nat);
        let state = pass_state(start, events, stamp, (n - 1) as nat);
        let event = events[n - 1];
        let behind = pass_step(state, event, stamp);
        let read = scan_of(events, local_name, (n - 1) as nat);
        let written = scan_written(state, attributes, local_name);
        lemma_phase_without_rules(start, events, stamp, n);
        assert(read is Open ==> !(event is StartDocument) && !closes_description(events, n - 1));
        assert(scan_of(events, local_name, n) == scan_step(read, event, local_name));
        if is_boundary(event) && !(read is Open) {
            lemma_boundary_is_unseen(read, event, local_name);
        }
        match state.phase {
            Phase::Before => {
                if behind.phase is Inside {
                    let name = event->StartElement_name;
                    let merged = MarkupEventView::StartElement {
                        name,
                        attributes,
                        namespace: state.bindings,
                    };
                    assert(assembled(behind, attributes) =~= assembled(state, attributes).push(
                        merged,
                    ));
                    lemma_scan_of_push(assembled(state, attributes), merged, local_name);
                    lemma_starts_scan_alike(read, event, merged, local_name);
                } else if event is StartDocument {
                } else {
                    assert(assembled(behind, attributes) =~= assembled(state, attributes).push(
                        event,
                    ));
                    lemma_scan_of_push(assembled(state, attributes), event, local_name);
                }
            },
            Phase::Inside { level } => {
                if behind.phase is Closing {
                } else {
                    assert(field_index(state.rules, event->StartElement_name, 0) == 0);
                    assert(behind == PassState { after: state.after.push(event), ..behind });
                    lemma_written_push(state, attributes, event, local_name);
                    assert(behind.after == state.after.push(event));
                    assert(assembled(behind, attributes) =~= assembled(
                        PassState { after: state.after.push(event), ..state },
                        attributes,
                    ));
                }
            },
            Phase::Replacing { depth } => {},
            Phase::Closing { pending } => {
                if behind.phase is After {
                    assert(flushed(state.rules, stamp, 0) =~= Seq::<MarkupEventView>::empty());
                    let held = PassState { after: state.after.push(pending), ..state };
                    lemma_written_push(state, attributes, pending, local_name);
                    lemma_written_push(held, attributes, event, local_name);
                    lemma_boundary_is_unseen(written, pending, local_name);
                    assert(behind.after =~= state.after.push(pending).push(event));
                    assert(assembled(behind, attributes) =~= assembled(
                        PassState { after: held.after.push(event), ..held },
                        attributes,
                    ));
                }
            },
            Phase::After => {
                lemma_written_push(state, attributes, event, local_name);
                assert(assembled(behind, attributes) =~= assembled(
                    PassState { after: state.after.push(event), ..state },
                    attributes,
                ));
            },
        }
    }
}

/// The value of the first attribute of a name among attributes that are
/// put one behind the other.
proof fn lemma_attribute_value_of_both(
    a: Seq<AttributeView>,
    b: Seq<AttributeView>,
    namespace: Option<Seq<char>>,
    local_name: Seq<char>,
    from: int,
)
    requires
        0 <= from <= a.len(),
    ensures
        attribute_value(a + b, namespace, local_name, from) == match attribute_value(
            a,
            namespace,
            local_name,
            from,
        ) {
            Some(value) => Some(value),
            None => attribute_value(b, namespace, local_name, 0),
        },
    decreases a.len() - from,
{
    if from < a.len() {
        assert((a + b)[from] == a[from]);
        if !a[from].name.is(namespace, local_name) {
            lemma_attribute_value_of_both(a, b, namespace, local_name, from + 1);
        }
    } else {
        lemma_attribute_value_shifted(a, b, namespace, local_name, 0);
    }
}

/// Attributes that stand behind others are found there.
proof fn lemma_attribute_value_shifted(
    a: Seq<AttributeView>,
    b: Seq<AttributeView>,
    namespace: Option<Seq<char>>,
    local_name: Seq<char>,
    from: int,
)
    requires
        0 <= from <= b.len(),
    ensures
        attribute_value(a + b, namespace, local_name, a.len() + from) == attribute_value(
            b,
            namespace,
            local_name,
            from,
        ),
    decreases b.len() - from,
{
    if from < b.len() {
        assert((a + b)[a.len() + from] == b[from]);
        lemma_attribute_value_shifted(a, b, namespace, local_name, from + 1);
    }
}

/// What is gathered gives a field the attribute that the first description
/// element gives it, where no later one gives it.
proof fn lemma_gathered_attribute(events: Seq<MarkupEventView>, local_name: Seq<char>, n: nat)
    requires
        n <= events.len(),
        later_descriptions_lack(events, local_name),
    ensures
        n <= first_start(events, Some(crate::ns::RDF@), "Description"@, 0) ==> gathered_from(
            events,
            n,
        ).attributes.len() == 0 && gathered_from(events, n).level == 0,
        n > first_start(events, Some(crate::ns::RDF@), "Description"@, 0) ==> attribute_value(
            gathered_from(events, n).attributes,
            Some(crate::ns::ACDSEE@),
            local_name,
            0,
        ) == attribute_field(events, local_name),
    decreases n,
{
    let first = first_start(events, Some(crate::ns::RDF@), "Description"@, 0);
    crate::xmp::laws::lemma_first_start(events, Some(crate::ns::RDF@), "Description"@, 0);
    if n > 0 {
        lemma_gathered_attribute(events, local_name, (n - 1) as nat);
        let before = gathered_from(events, (n - 1) as nat);
        let event = events[n - 1];
        assert(gathered_from(events, n) == gather_step(before, event));
        if n - 1 < first {
            assert(!starts_element(event, Some(crate::ns::RDF@), "Description"@));
        } else if n - 1 == first {
            assert(before.attributes + event->StartElement_attributes
                =~= event->StartElement_attributes);
        } else if gathered_from(events, n).attributes != before.attributes {
            assert(starts_element(event, Some(crate::ns::RDF@), "Description"@));
            lemma_attribute_value_of_both(
                before.attributes,
                event->StartElement_attributes,
                Some(crate::ns::ACDSEE@),
                local_name,
                0,
            );
        }
    }
}

/// Before the description, a pass writes no start of a description.
proof fn lemma_no_description_before(
    start: PassState,
    events: Seq<MarkupEventView>,
    stamp: Seq<char>,
    n: nat,
)
    requires
        n <= events.len(),
        start == pass_start(start.bindings, Seq::empty()),
    ensures
        forall|i: int|
            0 <= i < pass_state(start, events, stamp, n).before.len() ==> !starts_element(
                #[trigger] pass_state(start, events, stamp, n).before[i],
                Some(crate::ns::RDF@),
                "Description"@,
            ),
        pass_state(start, events, stamp, n).bindings == start.bindings,
        pass_state(start, events, stamp, n).rules.len() == 0,
        !(pass_state(start, events, stamp, n).phase is Replacing),
        pass_state(start, events, stamp, n).opened.is_none() <==> first_start(
            events,
            Some(crate::ns::RDF@),
            "Description"@,
            0,
        ) >= n,
        pass_state(start, events, stamp, n).opened.is_none() <==> pass_state(
            start,
            events,
            stamp,
            n,
        ).phase is Before,
    decreases n,
{
    crate::xmp::laws::lemma_first_start(events, Some(crate::ns::RDF@), "Description"@, 0);
    if n > 0 {
        lemma_no_description_before(start, events, stamp, (n - 1) as nat);
        let state = pass_state(start, events, stamp, (n - 1) as nat);
        let event = events[n - 1];
        let behind = pass_step(state, event, stamp);
        let first = first_start(events, Some(crate::ns::RDF@), "Description"@, 0);
        match state.phase {
            Phase::Before => {
                if n - 1 < first {
                    assert(!starts_element(event, Some(crate::ns::RDF@), "Description"@));
                }
                assert forall|i: int| 0 <= i < behind.before.len() implies !starts_element(
                    #[trigger] behind.before[i],
                    Some(crate::ns::RDF@),
                    "Description"@,
                ) by {
                    if i < state.before.len() {
                        assert(behind.before[i] == state.before[i]);
                    }
                }
            },
            Phase::Inside { level } => {
                assert(field_index(state.rules, event->StartElement_name, 0) == 0);
            },
            Phase::Replacing { depth } => {},
            Phase::Closing { pending } => {
                assert(flushed_bindings(state.bindings, state.rules, 0) == state.bindings);
            },
            Phase::After => {},
        }
    }
}

/// Rewriting without rules keeps the fields: where the description that
/// is written into does not end inside the first element of a field, and no
/// description behind the first gives the field as an attribute, the field
/// reads the same in the rewritten document as in the document, as one
/// value and as many.
pub proof fn lemma_no_rules_keep_fields(
    events: Seq<MarkupEventView>,
    stamp: Seq<char>,
    local_name: Seq<char>,
)
    requires
        field_stands_clear(events, local_name),
        later_descriptions_lack(events, local_name),
    ensures
        rewritten(events, Seq::empty(), stamp) matches Ok(output) && scalar_field(
            output,
            local_name,
        ) == scalar_field(events, local_name) && bag_field(output, local_name) == bag_field(
            events,
            local_name,
        ),
{
    let rules = Seq::<RuleView>::empty();
    let merged = merged_start(events, rules, stamp);
    let gathered = gathered_from(events, events.len());
    assert(merged.attributes == gathered.attributes);
    assert(merged.left.len() == 0);
    assert(active_rules(merged.left, 0) =~= Seq::<RuleView>::empty());
    let start = pass_start(merged.bindings, Seq::empty());
    let state = final_state(events, rules, stamp);
    let output = assembled(state, merged.attributes);
    lemma_pass_keeps_scan(start, merged.attributes, events, stamp, local_name, events.len());
    lemma_reading_is_a_scan(events, local_name);
    lemma_reading_is_a_scan(output, local_name);
    lemma_no_description_before(start, events, stamp, events.len());
    lemma_gathered_attribute(events, local_name, events.len());
    crate::xmp::laws::lemma_first_start(events, Some(crate::ns::RDF@), "Description"@, 0);
    crate::xmp::laws::lemma_first_start(output, Some(crate::ns::RDF@), "Description"@, 0);
    let found = first_start(output, Some(crate::ns::RDF@), "Description"@, 0);
    if state.opened.is_some() {
        let at = state.before.len() as int;
        assert(output[at] == MarkupEventView::StartElement {
            name: state.opened.unwrap(),
            attributes: merged.attributes,
            namespace: state.bindings,
        });
        assert(keeps_scan(state, merged.attributes, events, local_name, events.len()));
        assert(starts_element(output[at], Some(crate::ns::RDF@), "Description"@));
        assert(found <= at) by {
            if found > at {
                assert(!starts_element(output[at], Some(crate::ns::RDF@), "Description"@));
            }
        }
        assert(found == at) by {
            if found < at {
                assert(output[found] == state.before[found]);
            }
        }
    } else {
        assert(output == state.before);
        if found < output.len() {
            assert(starts_element(state.before[found], Some(crate::ns::RDF@), "Description"@));
        }
    }
}

} // verus!
