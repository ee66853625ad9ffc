//! Hierarchies of tags, and how the catalog writes them down.
//!
//! The catalog writes its categories as nested `Category` elements. The text
//! of an element is the name of a category, and an attribute `Assigned`
//! with the value `1` says that the category is assigned. Each assigned
//! category is a tag: the path of names from the outermost category to it.

use vstd::prelude::*;
use vstd::string::StringExecFns;

use crate::codec::{parsed_events, read_events};
use crate::markup::{attributes_view, events_view, Attribute, AttributeView, MarkupEvent, MarkupEventView};
use crate::text::{text_eq, texts_view};

verus! {

/// A tag in a hierarchy: the names on the path to it, the root first.
#[derive(Debug, PartialEq, Eq, Hash)]
pub struct Tag(pub Vec<String>);

impl View for Tag {
    type V = Seq<Seq<char>>;

    open spec fn view(&self) -> Seq<Seq<char>> {
        texts_view(self.0@)
    }
}

/// `parts`, one behind the other, with `separator` between each two.
pub open spec fn join_texts(parts: Seq<Seq<char>>, separator: Seq<char>) -> Seq<char>
    decreases parts.len(),
{
    if parts.len() == 0 {
        Seq::empty()
    } else if parts.len() == 1 {
        parts[0]
    } else {
        join_texts(parts.drop_last(), separator) + separator + parts.last()
    }
}

impl Tag {
    /// Whether two tags are the same path.
    pub fn same(&self, other: &Tag) -> (r: bool)
        ensures
            r == (self@ == other@),
    {
        if self.0.len() != other.0.len() {
            assert(self@.len() != other@.len());
            return false;
        }
        let mut i: usize = 0;
        while i < self.0.len()
            invariant
                i <= self.0@.len(),
                self.0@.len() == other.0@.len(),
                forall|k: int| 0 <= k < i ==> self.0@[k]@ == other.0@[k]@,
            decreases self.0@.len() - i,
        {
            if !text_eq(self.0[i].as_str(), other.0[i].as_str()) {
                assert(self@[i as int] != other@[i as int]);
                return false;
            }
            i += 1;
        }
        assert(self@ =~= other@);
        true
    }

    /// The names of the path, with `separator` between each two.
    pub fn joined(&self, separator: &str) -> (r: String)
        ensures
            r@ == join_texts(self@, separator@),
    {
        let mut out = String::new();
        let mut i: usize = 0;
        while i < self.0.len()
            invariant
                i <= self.0@.len(),
                out@ == join_texts(self@.take(i as int), separator@),
            decreases self.0@.len() - i,
        {
            proof {
                assert(self@.take(i + 1).drop_last() =~= self@.take(i as int));
                assert(self@.take(i + 1).last() == self.0@[i as int]@);
            }
            if i > 0 {
                out.append(separator);
            }
            out.append(self.0[i].as_str());
            proof {
                if i == 0 {
                    assert(out@ =~= self.0@[0]@);
                }
            }
            i += 1;
        }
        assert(self@.take(i as int) =~= self@);
        out
    }
}

/// The paths of the tags of a list.
pub open spec fn tags_view(tags: Seq<Tag>) -> Seq<Seq<Seq<char>>> {
    tags.map_values(|t: Tag| t@)
}

/// No path occurs twice.
pub open spec fn distinct_paths(paths: Seq<Seq<Seq<char>>>) -> bool {
    forall|i: int, j: int| 0 <= i < j < paths.len() ==> paths[i] != paths[j]
}

/// `paths`, and `path` behind them unless it is among them.
pub open spec fn with_path(paths: Seq<Seq<Seq<char>>>, path: Seq<Seq<char>>) -> Seq<
    Seq<Seq<char>>,
> {
    if paths.contains(path) {
        paths
    } else {
        paths.push(path)
    }
}

/// A set of tags. No tag is held twice; the tags are kept in the order in
/// which they were first found.
#[derive(Debug)]
pub struct TagHierarchy(Vec<Tag>);

impl View for TagHierarchy {
    type V = Seq<Seq<Seq<char>>>;

    closed spec fn view(&self) -> Seq<Seq<Seq<char>>> {
        tags_view(self.0@)
    }
}

/// The categories that are open at some point of the catalog's markup, and
/// the tags found up to there.
pub struct CategoryState {
    /// The name and the flag of each open category, the outermost first.
    pub stack: Seq<(Seq<char>, bool)>,
    /// The paths of the assigned categories that were closed.
    pub paths: Seq<Seq<Seq<char>>>,
}

/// Whether the first attribute named `Assigned` at or after `from` has the
/// value `1`.
pub open spec fn assigned_flag(attributes: Seq<AttributeView>, from: int) -> bool
    decreases attributes.len() - from,
{
    if from < 0 || from >= attributes.len() {
        false
    } else if attributes[from].name.local_name == "Assigned"@ {
        attributes[from].value == "1"@
    } else {
        assigned_flag(attributes, from + 1)
    }
}

/// The names of the open categories.
pub open spec fn stack_path(stack: Seq<(Seq<char>, bool)>) -> Seq<Seq<char>> {
    stack.map_values(|entry: (Seq<char>, bool)| entry.0)
}

/// The state behind one more event. The start of a `Category` opens a
/// category without a name. Text names the innermost open category. The end
/// of a `Category` closes the innermost one, and makes a tag of the open
/// categories where it is assigned.
pub open spec fn category_step(state: CategoryState, event: MarkupEventView) -> CategoryState {
    match event {
        MarkupEventView::StartElement { name, attributes, .. } => if name.local_name
            == "Category"@ {
            CategoryState {
                stack: state.stack.push((Seq::empty(), assigned_flag(attributes, 0))),
                ..state
            }
        } else {
            state
        },
        MarkupEventView::EndElement { name } => if name.local_name == "Category"@
            && state.stack.len() > 0 {
            CategoryState {
                stack: state.stack.drop_last(),
                paths: if state.stack.last().1 {
                    with_path(state.paths, stack_path(state.stack))
                } else {
                    state.paths
                },
            }
        } else {
            state
        },
        MarkupEventView::Characters(text) => if state.stack.len() > 0 {
            CategoryState {
                stack: state.stack.update(state.stack.len() - 1, (text, state.stack.last().1)),
                ..state
            }
        } else {
            state
        },
        _ => state,
    }
}

/// The state behind the first `n` events.
pub open spec fn category_state(events: Seq<MarkupEventView>, n: nat) -> CategoryState
    decreases n,
{
    if n == 0 {
        CategoryState { stack: Seq::empty(), paths: Seq::empty() }
    } else {
        category_step(category_state(events, (n - 1) as nat), events[n - 1])
    }
}

/// The tags that the catalog's markup of categories holds.
pub open spec fn category_paths(events: Seq<MarkupEventView>) -> Seq<Seq<Seq<char>>> {
    category_state(events, events.len()).paths
}

/// The tags that the catalog holds in the text `value`: none in the empty
/// text; else those of the markup that the text is read as, where it can
/// be read.
pub open spec fn categories_of(value: Seq<char>) -> Option<Seq<Seq<Seq<char>>>> {
    if value.len() == 0 {
        Some(Seq::empty())
    } else {
        match parsed_events(vstd::utf8::encode_utf8(value), true, true) {
            Some(events) => Some(category_paths(events)),
            None => None,
        }
    }
}

/// The views of the entries of a stack of categories.
pub open spec fn stack_view(stack: Seq<(String, bool)>) -> Seq<(Seq<char>, bool)> {
    stack.map_values(|entry: (String, bool)| (entry.0@, entry.1))
}

/// Whether the first attribute named `Assigned` has the value `1`.
fn is_assigned(attributes: &Vec<Attribute>) -> (r: bool)
    ensures
        r == assigned_flag(attributes_view(attributes@), 0),
{
    let mut i: usize = 0;
    while i < attributes.len()
        invariant
            i <= attributes@.len(),
            assigned_flag(attributes_view(attributes@), i as int) == assigned_flag(
                attributes_view(attributes@),
                0,
            ),
        decreases attributes@.len() - i,
    {
        if text_eq(attributes[i].name.local_name.as_str(), "Assigned") {
            return text_eq(attributes[i].value.as_str(), "1");
        }
        i += 1;
    }
    false
}

/// Whether a tag is among the tags of a list.
fn holds_tag(tags: &Vec<Tag>, tag: &Tag) -> (r: bool)
    ensures
        r == tags_view(tags@).contains(tag@),
{
    let mut i: usize = 0;
    while i < tags.len()
        invariant
            i <= tags@.len(),
            forall|k: int| 0 <= k < i ==> tags_view(tags@)[k] != tag@,
        decreases tags@.len() - i,
    {
        if tags[i].same(tag) {
            assert(tags_view(tags@)[i as int] == tag@);
            return true;
        }
        i += 1;
    }
    false
}

/// The tag that is the path of the open categories.
fn tag_of(stack: &Vec<(String, bool)>) -> (r: Tag)
    ensures
        r@ == stack_path(stack_view(stack@)),
{
    let mut names: Vec<String> = Vec::new();
    let mut i: usize = 0;
    while i < stack.len()
        invariant
            i <= stack@.len(),
            names@.len() == i,
            forall|k: int| 0 <= k < i ==> names@[k]@ == stack@[k].0@,
        decreases stack@.len() - i,
    {
        names.push(stack[i].0.clone());
        i += 1;
    }
    let tag = Tag(names);
    assert(tag@ =~= stack_path(stack_view(stack@)));
    tag
}

/// A value that can be read from the text in which the catalog holds it.
pub trait FromAcdSee: Sized {
    type Error;

    fn from_acdsee(value: &str) -> Result<Self, Self::Error>;
}

impl FromAcdSee for TagHierarchy {
    type Error = xml::reader::Error;

    /// Reads the categories of the catalog. The empty text holds none;
    /// any other text is read as markup.
    fn from_acdsee(value: &str) -> (r: Result<Self, Self::Error>)
        ensures
            match r {
                Ok(tags) => categories_of(value@) == Some(tags@),
                Err(_) => categories_of(value@).is_none(),
            },
    {
        if value.is_empty() {
            return Ok(TagHierarchy::new());
        }
        let events = match read_events(value.as_bytes(), true, true) {
            Ok(events) => events,
            Err(error) => {
                return Err(error);
            },
        };
        let mut stack: Vec<(String, bool)> = Vec::new();
        let mut tags: Vec<Tag> = Vec::new();
        let mut i: usize = 0;
        proof {
            assert(stack_view(stack@) =~= Seq::<(Seq<char>, bool)>::empty());
            assert(tags_view(tags@) =~= Seq::<Seq<Seq<char>>>::empty());
        }
        while i < events.len()
            invariant
                i <= events@.len(),
                distinct_paths(tags_view(tags@)),
                category_state(events_view(events@), i as nat) == (CategoryState {
                    stack: stack_view(stack@),
                    paths: tags_view(tags@),
                }),
            decreases events@.len() - i,
        {
            let ghost before = stack_view(stack@);
            match &events[i] {
                MarkupEvent::StartElement { name, attributes, .. } => {
                    if text_eq(name.local_name.as_str(), "Category") {
                        let flag = is_assigned(attributes);
                        stack.push((String::new(), flag));
                        assert(stack_view(stack@) =~= before.push((Seq::empty(), flag)));
                    }
                },
                MarkupEvent::EndElement { name } => {
                    if text_eq(name.local_name.as_str(), "Category") && stack.len() > 0 {
                        if stack[stack.len() - 1].1 {
                            let tag = tag_of(&stack);
                            if !holds_tag(&tags, &tag) {
                                let ghost paths = tags_view(tags@);
                                tags.push(tag);
                                assert(tags_view(tags@) =~= paths.push(tag@));
                            }
                        }
                        stack.pop();
                        assert(stack_view(stack@) =~= before.drop_last());
                    }
                },
                MarkupEvent::Characters(text) => {
                    if stack.len() > 0 {
                        let last = stack.len() - 1;
                        let flag = stack[last].1;
                        stack.set(last, (text.clone(), flag));
                        assert(stack_view(stack@) =~= before.update(last as int, (text@, flag)));
                    }
                },
                _ => {},
            }
            i += 1;
        }
        Ok(TagHierarchy(tags))
    }
}

impl Default for TagHierarchy {
    fn default() -> (r: Self)
        ensures
            r@ == Seq::<Seq<Seq<char>>>::empty(),
    {
        TagHierarchy::new()
    }
}

impl TagHierarchy {
    #[verifier::type_invariant]
    spec fn distinct(self) -> bool {
        distinct_paths(tags_view(self.0@))
    }

    /// A hierarchy without tags.
    pub fn new() -> (r: Self)
        ensures
            r@ == Seq::<Seq<Seq<char>>>::empty(),
    {
        let tags: Vec<Tag> = Vec::new();
        assert(tags_view(tags@) =~= Seq::<Seq<Seq<char>>>::empty());
        TagHierarchy(tags)
    }

    /// The tags of the hierarchy. No two of them are the same path.
    pub fn tags(&self) -> (r: &Vec<Tag>)
        ensures
            tags_view(r@) == self@,
            distinct_paths(self@),
    {
        proof {
            use_type_invariant(self);
        }
        &self.0
    }

    /// The number of tags.
    pub fn len(&self) -> (r: usize)
        ensures
            r == self@.len(),
    {
        self.0.len()
    }

    /// A copy of the hierarchy.
    pub fn duplicate(&self) -> (r: Self)
        ensures
            r@ == self@,
    {
        proof {
            use_type_invariant(self);
        }
        let mut tags: Vec<Tag> = Vec::with_capacity(self.0.len());
        let mut i: usize = 0;
        while i < self.0.len()
            invariant
                i <= self.0@.len(),
                tags@.len() == i,
                forall|k: int| 0 <= k < i ==> tags@[k]@ == self.0@[k]@,
            decreases self.0@.len() - i,
        {
            tags.push(Tag(crate::text::clone_texts(&self.0[i].0)));
            i += 1;
        }
        assert(tags_view(tags@) =~= tags_view(self.0@));
        TagHierarchy(tags)
    }
}

} // verus!
