//! Rewrite rules: which field a rule is for, and what it puts there.

use vstd::prelude::*;

use crate::markup::{
    events_view, namespace_empty, no_bindings, AttributeView, MarkupEvent, MarkupEventView, QName,
    QNameView,
};
use crate::text::{clone_texts, opt_text, texts_view};

verus! {

/// Why a rule could not be run.
#[derive(Clone, Copy, Debug, PartialEq, Eq, Structural)]
pub enum RewriteRuleError {
    /// The rule's action cannot give the value of an attribute.
    Unsupported,
}

impl RewriteRuleError {
    /// The error in words.
    pub fn message(&self) -> (r: &'static str)
        ensures
            r@ == "attributes are not supported by this rule"@,
    {
        "attributes are not supported by this rule"
    }
}

/// The form in which a time stamp is written: `YYYY-MM-DDThh:mm:ss±hh:mm`.
pub open spec fn timestamp_format() -> Seq<char> {
    "%Y-%m-%dT%H:%M:%S%:z"@
}

/// Whether a character is a decimal digit.
pub open spec fn is_stamp_digit(c: char) -> bool {
    '0' <= c <= '9'
}

/// Whether a text writes a year as a time stamp does: with four digits, or
/// with a sign and four digits or more where four digits cannot write it.
pub open spec fn is_stamp_year(text: Seq<char>) -> bool {
    if text.len() > 0 && (text[0] == '+' || text[0] == '-') {
        text.len() >= 5 && forall|i: int| 1 <= i < text.len() ==> is_stamp_digit(#[trigger] text[i])
    } else {
        text.len() == 4 && forall|i: int| 0 <= i < text.len() ==> is_stamp_digit(#[trigger] text[i])
    }
}

/// Whether a text of twenty-one characters writes what follows the year in
/// a time stamp: `-MM-DDThh:mm:ss±hh:mm`, each letter a digit.
pub open spec fn is_stamp_tail(text: Seq<char>) -> bool {
    &&& text.len() == 21
    &&& text[0] == '-'
    &&& is_stamp_digit(text[1])
    &&& is_stamp_digit(text[2])
    &&& text[3] == '-'
    &&& is_stamp_digit(text[4])
    &&& is_stamp_digit(text[5])
    &&& text[6] == 'T'
    &&& is_stamp_digit(text[7])
    &&& is_stamp_digit(text[8])
    &&& text[9] == ':'
    &&& is_stamp_digit(text[10])
    &&& is_stamp_digit(text[11])
    &&& text[12] == ':'
    &&& is_stamp_digit(text[13])
    &&& is_stamp_digit(text[14])
    &&& (text[15] == '+' || text[15] == '-')
    &&& is_stamp_digit(text[16])
    &&& is_stamp_digit(text[17])
    &&& text[18] == ':'
    &&& is_stamp_digit(text[19])
    &&& is_stamp_digit(text[20])
}

/// Whether a text is a time stamp: a year, and behind it month, day, hour,
/// minute, second and the offset from universal time, in the form
/// `YYYY-MM-DDThh:mm:ss±hh:mm`.
pub open spec fn is_timestamp(text: Seq<char>) -> bool {
    &&& text.len() >= 25
    &&& is_stamp_year(text.subrange(0, text.len() - 21))
    &&& is_stamp_tail(text.subrange(text.len() - 21, text.len() as int))
}

/// `chrono::Local::now`, written out by `DateTime::format`: the local time
/// of the call in the form asked for. Which time that is cannot be known
/// beforehand; that it is written as a time stamp is what the format
/// items `%Y`, `%m`, `%d`, `%H`, `%M`, `%S` and `%:z` write: the year with
/// four digits (signed and longer only beyond the years 0 to 9999), the
/// others with two digits each, the offset with its sign and a colon.
#[verifier::external_body]
fn local_time(format: &str) -> (r: String)
    requires
        format@ == timestamp_format(),
    ensures
        is_timestamp(r@),
{
    chrono::Local::now().format(format).to_string()
}

/// The action that sets a field to the time at which the rule is run.
#[derive(Clone, Copy, Debug)]
pub struct SetToCurrentDateTime;

impl SetToCurrentDateTime {
    /// The local time, as a time stamp.
    pub fn now() -> (r: String)
        ensures
            is_timestamp(r@),
    {
        local_time("%Y-%m-%dT%H:%M:%S%:z")
    }
}

/// The action that sets a field to a list of values.
#[derive(Debug)]
pub struct SetRdfList {
    ty: &'static str,
    values: Vec<String>,
}

impl SetRdfList {
    /// The kind of list that is written: `Seq`, `Alt` or `Bag`.
    pub closed spec fn kind(self) -> Seq<char> {
        self.ty@
    }

    /// The values of the list, in order.
    pub closed spec fn items(self) -> Seq<Seq<char>> {
        texts_view(self.values@)
    }

    /// The action that writes `values` as a list of the kind `ty`.
    pub fn new(ty: &'static str, values: Vec<String>) -> (r: Self)
        ensures
            r.kind() == ty@,
            r.items() == texts_view(values@),
    {
        Self { ty, values }
    }

    /// A copy of the action.
    pub fn duplicate(&self) -> (r: Self)
        ensures
            r.kind() == self.kind(),
            r.items() == self.items(),
    {
        Self { ty: self.ty, values: clone_texts(&self.values) }
    }
}

/// What a rule does to its field.
#[derive(Debug)]
pub enum RewriteAction {
    SetToCurrentDateTime(SetToCurrentDateTime),
    SetRdfList(SetRdfList),
}

/// An action, as plain values.
pub enum ActionView {
    Timestamp,
    List { kind: Seq<char>, values: Seq<Seq<char>> },
}

impl View for RewriteAction {
    type V = ActionView;

    open spec fn view(&self) -> ActionView {
        match *self {
            RewriteAction::SetToCurrentDateTime(_) => ActionView::Timestamp,
            RewriteAction::SetRdfList(list) => ActionView::List {
                kind: list.kind(),
                values: list.items(),
            },
        }
    }
}

impl RewriteAction {
    /// A copy of the action.
    pub fn duplicate(&self) -> (r: Self)
        ensures
            r@ == self@,
    {
        match self {
            RewriteAction::SetToCurrentDateTime(_) => RewriteAction::SetToCurrentDateTime(
                SetToCurrentDateTime,
            ),
            RewriteAction::SetRdfList(list) => RewriteAction::SetRdfList(list.duplicate()),
        }
    }
}

/// The name of an element of the rdf vocabulary.
pub open spec fn rdf_name(local_name: Seq<char>) -> QNameView {
    QNameView {
        local_name,
        namespace: Some(crate::ns::RDF@),
        prefix: Some("rdf"@),
    }
}

/// The start of an element without attributes and without bindings.
pub open spec fn plain_start(name: QNameView) -> MarkupEventView {
    MarkupEventView::StartElement {
        name,
        attributes: Seq::<AttributeView>::empty(),
        namespace: no_bindings(),
    }
}

/// The end of an element.
pub open spec fn plain_end(name: QNameView) -> MarkupEventView {
    MarkupEventView::EndElement { name }
}

/// One `rdf:li` element for each value, with the value as its text.
pub open spec fn render_items(values: Seq<Seq<char>>) -> Seq<MarkupEventView>
    decreases values.len(),
{
    if values.len() == 0 {
        Seq::empty()
    } else {
        render_items(values.drop_last()) + seq![
            plain_start(rdf_name("li"@)),
            MarkupEventView::Characters(values.last()),
            plain_end(rdf_name("li"@)),
        ]
    }
}

/// The element of name `name` that an action writes. A time stamp action
/// writes `stamp` as the element's text. A list action writes one list
/// element of its kind, which holds the items.
pub open spec fn render_element(action: ActionView, name: QNameView, stamp: Seq<char>) -> Seq<
    MarkupEventView,
> {
    match action {
        ActionView::Timestamp => seq![
            plain_start(name),
            MarkupEventView::Characters(stamp),
            plain_end(name),
        ],
        ActionView::List { kind, values } => seq![plain_start(name), plain_start(rdf_name(kind))]
            + render_items(values) + seq![plain_end(rdf_name(kind)), plain_end(name)],
    }
}

/// The value of an attribute that an action writes: the time stamp; a list
/// cannot be the value of an attribute.
pub open spec fn render_attribute(action: ActionView, stamp: Seq<char>) -> Result<
    Seq<char>,
    RewriteRuleError,
> {
    match action {
        ActionView::Timestamp => Ok(stamp),
        ActionView::List { .. } => Err(RewriteRuleError::Unsupported),
    }
}

/// A rule: the field it is for, how it may be applied, and its action.
#[derive(Debug)]
pub struct RewriteRule {
    node_namespace: Option<&'static str>,
    node_name: &'static str,
    node_prefix: &'static str,
    allow_attribute: bool,
    required: bool,
    action: RewriteAction,
}

/// A rule, as plain values.
pub struct RuleView {
    pub namespace: Option<Seq<char>>,
    pub local_name: Seq<char>,
    pub prefix: Seq<char>,
    pub allow_attribute: bool,
    pub required: bool,
    pub action: ActionView,
}

impl RuleView {
    /// The name under which the rule writes its field where the document
    /// gives none.
    pub open spec fn name(self) -> QNameView {
        match self.namespace {
            Some(namespace) => QNameView {
                local_name: self.local_name,
                namespace: Some(namespace),
                prefix: Some(self.prefix),
            },
            None => QNameView { local_name: self.local_name, namespace: None, prefix: None },
        }
    }

    /// Whether the rule is for the field of this name.
    pub open spec fn matches(self, name: QNameView) -> bool {
        name.is(self.namespace, self.local_name)
    }

    /// The name of the element that the rule writes in place of `input`:
    /// that of the element that `input` starts with, else the rule's own.
    pub open spec fn element_name(self, input: Seq<MarkupEventView>) -> QNameView {
        if input.len() > 0 && input[0] is StartElement {
            input[0]->StartElement_name
        } else {
            self.name()
        }
    }

    /// What the rule writes in place of `input`, at the time `stamp`.
    pub open spec fn run(self, input: Seq<MarkupEventView>, stamp: Seq<char>) -> Seq<
        MarkupEventView,
    > {
        render_element(self.action, self.element_name(input), stamp)
    }

    /// The value that the rule gives an attribute, at the time `stamp`.
    pub open spec fn run_attribute(self, stamp: Seq<char>) -> Result<Seq<char>, RewriteRuleError> {
        render_attribute(self.action, stamp)
    }
}

impl View for RewriteRule {
    type V = RuleView;

    closed spec fn view(&self) -> RuleView {
        RuleView {
            namespace: opt_text(self.node_namespace),
            local_name: self.node_name@,
            prefix: self.node_prefix@,
            allow_attribute: self.allow_attribute,
            required: self.required,
            action: self.action@,
        }
    }
}

/// The views of the rules of a list.
pub open spec fn rules_view(rules: Seq<RewriteRule>) -> Seq<RuleView> {
    rules.map_values(|r: RewriteRule| r@)
}

/// The start of an element without attributes and without bindings.
fn start_of(name: QName) -> (r: MarkupEvent)
    ensures
        r@ == plain_start(name@),
{
    let event = MarkupEvent::StartElement {
        name,
        attributes: Vec::new(),
        namespace: namespace_empty(),
    };
    assert(crate::markup::attributes_view(Seq::<crate::markup::Attribute>::empty())
        =~= Seq::<AttributeView>::empty());
    event
}

/// The name of an element of the rdf vocabulary.
fn rdf_node(name: &str) -> (r: QName)
    ensures
        r@ == rdf_name(name@),
{
    QName::qualified(name, crate::ns::RDF, Some("rdf"))
}

impl RewriteRule {
    /// The rule for the field `node_name` of `node_namespace`. Where the rule
    /// writes the field anew it gives it the prefix `node_prefix`.
    pub fn new(
        node_namespace: Option<&'static str>,
        node_name: &'static str,
        node_prefix: &'static str,
        allow_attribute: bool,
        required: bool,
        action: RewriteAction,
    ) -> (r: Self)
        ensures
            r@ == (RuleView {
                namespace: opt_text(node_namespace),
                local_name: node_name@,
                prefix: node_prefix@,
                allow_attribute,
                required,
                action: action@,
            }),
    {
        Self { node_namespace, node_name, node_prefix, allow_attribute, required, action }
    }

    /// The name under which the rule writes its field where the document
    /// gives none.
    pub fn name(&self) -> (r: QName)
        ensures
            r@ == self@.name(),
    {
        match self.node_namespace {
            Some(namespace) => QName::qualified(self.node_name, namespace, Some(self.node_prefix)),
            None => QName::local(self.node_name),
        }
    }

    pub fn namespace(&self) -> (r: Option<&'static str>)
        ensures
            opt_text(r) == self@.namespace,
    {
        self.node_namespace
    }

    pub fn local_name(&self) -> (r: &'static str)
        ensures
            r@ == self@.local_name,
    {
        self.node_name
    }

    pub fn prefix(&self) -> (r: &'static str)
        ensures
            r@ == self@.prefix,
    {
        self.node_prefix
    }

    pub fn allow_attribute(&self) -> (r: bool)
        ensures
            r == self@.allow_attribute,
    {
        self.allow_attribute
    }

    pub fn required(&self) -> (r: bool)
        ensures
            r == self@.required,
    {
        self.required
    }

    /// Whether the rule is for the field of this name.
    pub fn matches(&self, name: &QName) -> (r: bool)
        ensures
            r == self@.matches(name@),
    {
        name.is(self.node_namespace, self.node_name)
    }

    /// A copy of the rule.
    pub fn duplicate(&self) -> (r: Self)
        ensures
            r@ == self@,
    {
        Self {
            node_namespace: self.node_namespace,
            node_name: self.node_name,
            node_prefix: self.node_prefix,
            allow_attribute: self.allow_attribute,
            required: self.required,
            action: self.action.duplicate(),
        }
    }

    /// What the rule writes in place of `input`, with `stamp` as the time.
    pub fn run_at(&self, input: &[MarkupEvent], stamp: &str) -> (r: Result<
        Vec<MarkupEvent>,
        RewriteRuleError,
    >)
        ensures
            r matches Ok(output) && events_view(output@) == self@.run(
                events_view(input@),
                stamp@,
            ),
    {
        let name = if input.len() > 0 {
            match &input[0] {
                MarkupEvent::StartElement { name, .. } => name.duplicate(),
                _ => self.name(),
            }
        } else {
            self.name()
        };
        assert(name@ == self@.element_name(events_view(input@)));
        let mut output: Vec<MarkupEvent> = Vec::new();
        output.push(start_of(name.duplicate()));
        match &self.action {
            RewriteAction::SetToCurrentDateTime(_) => {
                output.push(MarkupEvent::Characters(stamp.to_owned()));
                output.push(MarkupEvent::EndElement { name });
                assert(events_view(output@) =~= self@.run(events_view(input@), stamp@));
            },
            RewriteAction::SetRdfList(list) => {
                output.push(start_of(rdf_node(list.ty)));
                let ghost head = events_view(output@);
                assert(head =~= seq![plain_start(name@), plain_start(rdf_name(list.ty@))]);
                assert(render_items(texts_view(list.values@).take(0)) =~= Seq::empty());
                let mut i: usize = 0;
                while i < list.values.len()
                    invariant
                        i <= list.values.len(),
                        events_view(output@) == head + render_items(
                            texts_view(list.values@).take(i as int),
                        ),
                    decreases list.values.len() - i,
                {
                    let ghost before = events_view(output@);
                    output.push(start_of(rdf_node("li")));
                    output.push(MarkupEvent::Characters(list.values[i].clone()));
                    output.push(MarkupEvent::EndElement { name: rdf_node("li") });
                    proof {
                        let done = texts_view(list.values@).take(i as int);
                        let next = texts_view(list.values@).take(i + 1);
                        assert(next.drop_last() =~= done);
                        assert(next.last() == list.values@[i as int]@);
                        assert(events_view(output@) =~= before + seq![
                            plain_start(rdf_name("li"@)),
                            MarkupEventView::Characters(list.values@[i as int]@),
                            plain_end(rdf_name("li"@)),
                        ]);
                    }
                    i += 1;
                }
                proof {
                    assert(texts_view(list.values@).take(i as int) =~= texts_view(list.values@));
                }
                let ghost body = events_view(output@);
                let ghost element = name@;
                output.push(MarkupEvent::EndElement { name: rdf_node(list.ty) });
                output.push(MarkupEvent::EndElement { name });
                assert(events_view(output@) =~= body + seq![
                    plain_end(rdf_name(list.ty@)),
                    plain_end(element),
                ]);
            },
        }
        Ok(output)
    }

    /// What the rule writes in place of `input`, at the time of the call.
    pub fn run(&self, input: &[MarkupEvent]) -> (r: Result<Vec<MarkupEvent>, RewriteRuleError>)
        ensures
            r matches Ok(output) && exists|stamp: Seq<char>|
                is_timestamp(stamp) && events_view(output@) == #[trigger] self@.run(
                    events_view(input@),
                    stamp,
                ),
    {
        let stamp = SetToCurrentDateTime::now();
        self.run_at(input, stamp.as_str())
    }

    /// The value that the rule gives an attribute, with `stamp` as the
    /// time. The value that the attribute had does not count.
    pub fn run_attribute_at(&self, input: &str, stamp: &str) -> (r: Result<
        String,
        RewriteRuleError,
    >)
        ensures
            match r {
                Ok(value) => self@.run_attribute(stamp@) == Ok::<Seq<char>, RewriteRuleError>(
                    value@,
                ),
                Err(e) => self@.run_attribute(stamp@) == Err::<Seq<char>, RewriteRuleError>(e),
            },
    {
        match &self.action {
            RewriteAction::SetToCurrentDateTime(_) => Ok(stamp.to_owned()),
            RewriteAction::SetRdfList(_) => Err(RewriteRuleError::Unsupported),
        }
    }

    /// The value that the rule gives an attribute, at the time of the call:
    /// for a time stamp action the time stamp of that time.
    pub fn run_attribute(&self, input: &str) -> (r: Result<String, RewriteRuleError>)
        ensures
            match r {
                Ok(value) => is_timestamp(value@) && self@.run_attribute(value@) == Ok::<
                    Seq<char>,
                    RewriteRuleError,
                >(value@),
                Err(e) => self@.action is List && e == RewriteRuleError::Unsupported,
            },
    {
        let stamp = SetToCurrentDateTime::now();
        self.run_attribute_at(input, stamp.as_str())
    }
}

} // verus!
