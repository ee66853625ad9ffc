//! The rules that write the fields of the target vocabulary.

use vstd::prelude::*;

use crate::tags::{join_texts, TagHierarchy};
use crate::text::texts_view;
use crate::xmp::rule::{
    ActionView, RewriteAction, RewriteRule, RuleView, SetRdfList, SetToCurrentDateTime,
};

verus! {

/// The rule that sets the field `name` of a namespace to a list of values.
/// It is required, and is never applied to an attribute.
pub open spec fn list_rule(
    namespace: Seq<char>,
    prefix: Seq<char>,
    name: Seq<char>,
    kind: Seq<char>,
    values: Seq<Seq<char>>,
) -> RuleView {
    RuleView {
        namespace: Some(namespace),
        local_name: name,
        prefix,
        allow_attribute: false,
        required: true,
        action: ActionView::List { kind, values },
    }
}

/// The paths of a hierarchy, each with `|` between its names.
pub open spec fn joined_paths(paths: Seq<Seq<Seq<char>>>) -> Seq<Seq<char>> {
    paths.map_values(|path: Seq<Seq<char>>| join_texts(path, "|"@))
}

/// The rule that sets the date of the last change of the metadata to the
/// time at which it is run. It is required: a document that lacks the date
/// gets it.
pub open spec fn metadata_date_rule() -> RuleView {
    RuleView {
        namespace: Some(crate::ns::XMP@),
        local_name: "MetadataDate"@,
        prefix: "xmp"@,
        allow_attribute: true,
        required: true,
        action: ActionView::Timestamp,
    }
}

/// The rule that sets the date of the last change of the metadata.
pub fn xmp_metadata_date() -> (r: RewriteRule)
    ensures
        r@ == metadata_date_rule(),
{
    RewriteRule::new(
        Some(crate::ns::XMP),
        "MetadataDate",
        "xmp",
        true,
        true,
        RewriteAction::SetToCurrentDateTime(SetToCurrentDateTime),
    )
}

/// The rule that sets a field to an ordered list of values.
pub fn set_rdf_seq(
    namespace: &'static str,
    prefix: &'static str,
    name: &'static str,
    values: Vec<String>,
) -> (r: RewriteRule)
    ensures
        r@ == list_rule(namespace@, prefix@, name@, "Seq"@, texts_view(values@)),
{
    RewriteRule::new(
        Some(namespace),
        name,
        prefix,
        false,
        true,
        RewriteAction::SetRdfList(SetRdfList::new("Seq", values)),
    )
}

/// The rule that sets a field to a list of alternatives.
pub fn set_rdf_alt(
    namespace: &'static str,
    prefix: &'static str,
    name: &'static str,
    values: Vec<String>,
) -> (r: RewriteRule)
    ensures
        r@ == list_rule(namespace@, prefix@, name@, "Alt"@, texts_view(values@)),
{
    RewriteRule::new(
        Some(namespace),
        name,
        prefix,
        false,
        true,
        RewriteAction::SetRdfList(SetRdfList::new("Alt", values)),
    )
}

/// The rule that sets a field to a list of values without order.
pub fn set_rdf_bag(
    namespace: &'static str,
    prefix: &'static str,
    name: &'static str,
    values: Vec<String>,
) -> (r: RewriteRule)
    ensures
        r@ == list_rule(namespace@, prefix@, name@, "Bag"@, texts_view(values@)),
{
    RewriteRule::new(
        Some(namespace),
        name,
        prefix,
        false,
        true,
        RewriteAction::SetRdfList(SetRdfList::new("Bag", values)),
    )
}

/// A list that holds one value.
fn single(value: String) -> (r: Vec<String>)
    ensures
        texts_view(r@) == seq![value@],
{
    let mut values: Vec<String> = Vec::new();
    values.push(value);
    assert(texts_view(values@) =~= seq![value@]);
    values
}

/// The rule that sets the title.
pub fn set_dc_title(value: String) -> (r: RewriteRule)
    ensures
        r@ == list_rule(crate::ns::DC@, "dc"@, "title"@, "Alt"@, seq![value@]),
{
    set_rdf_alt(crate::ns::DC, "dc", "title", single(value))
}

/// The rule that sets the subject to keywords.
pub fn set_dc_subject(values: Vec<String>) -> (r: RewriteRule)
    ensures
        r@ == list_rule(crate::ns::DC@, "dc"@, "subject"@, "Bag"@, texts_view(values@)),
{
    set_rdf_bag(crate::ns::DC, "dc", "subject", values)
}

/// The rule that sets the description.
pub fn set_dc_description(value: String) -> (r: RewriteRule)
    ensures
        r@ == list_rule(crate::ns::DC@, "dc"@, "description"@, "Alt"@, seq![value@]),
{
    set_rdf_alt(crate::ns::DC, "dc", "description", single(value))
}

/// The rule that sets the creator.
pub fn set_dc_creator(value: String) -> (r: RewriteRule)
    ensures
        r@ == list_rule(crate::ns::DC@, "dc"@, "creator"@, "Seq"@, seq![value@]),
{
    set_rdf_seq(crate::ns::DC, "dc", "creator", single(value))
}

/// The rule that writes each tag of a hierarchy as one value, its names
/// joined by `|`.
pub fn set_lr_hierarchical_subject(tags: &TagHierarchy) -> (r: RewriteRule)
    ensures
        r@ == list_rule(
            crate::ns::LR@,
            "lr"@,
            "hierarchicalSubject"@,
            "Bag"@,
            joined_paths(tags@),
        ),
{
    let paths = tags.tags();
    let mut values: Vec<String> = Vec::with_capacity(paths.len());
    let mut i: usize = 0;
    while i < paths.len()
        invariant
            i <= paths@.len(),
            values@.len() == i,
            forall|k: int| 0 <= k < i ==> values@[k]@ == join_texts(paths@[k]@, "|"@),
        decreases paths@.len() - i,
    {
        values.push(paths[i].joined("|"));
        i += 1;
    }
    assert(texts_view(values@) =~= joined_paths(crate::tags::tags_view(paths@)));
    set_rdf_bag(crate::ns::LR, "lr", "hierarchicalSubject", values)
}

} // verus!
