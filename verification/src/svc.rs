//! What becomes of a file: the decisions that lie between reading a host
//! and writing it back.

use vstd::prelude::*;
use vstd::string::StrSliceExecFns;

use crate::acdsee::{
    categories_fail, datetime_fails, holds_fields_of, rule_if, AcdSeeData, AcdSeeError,
};
use crate::container::{
    is_prepared, is_read, Container, ContainerError, ContainerKind, ContainerRewriteError,
    ContainerWriteError, Markup, Prepared,
};
use crate::file::with_body;
use crate::markup::{MarkupEventView, QNameView};
use crate::tags::categories_of;
use crate::xmp::rewrite::{rewritten, WriteError};
use crate::xmp::rule::{is_timestamp, rules_view, RuleView, SetToCurrentDateTime};
use crate::xmp::rules::{joined_paths, list_rule, metadata_date_rule, xmp_metadata_date};
use crate::xmp::{bag_field, scalar_field};

verus! {

/// How much work is left in the background.
#[derive(Clone, Copy, Debug, PartialEq, Eq, Structural)]
pub enum BackgroundProgress {
    /// This many tasks are left.
    Left(usize),
    Complete,
}

impl BackgroundProgress {
    /// The progress when `events_len` tasks are left.
    pub fn from(events_len: usize) -> (r: Self)
        ensures
            r == if events_len == 0 {
                BackgroundProgress::Complete
            } else {
                BackgroundProgress::Left(events_len)
            },
    {
        if events_len == 0 {
            BackgroundProgress::Complete
        } else {
            BackgroundProgress::Left(events_len)
        }
    }
}

/// How far the work has come: `current` of `total` tasks are done.
#[derive(Clone, Copy, Debug, PartialEq, Eq, Structural)]
pub struct ProgressUpdate {
    pub current: usize,
    pub total: usize,
}

/// The update to show for the progress in the background, and the number
/// of tasks that is expected from then on. While tasks are left, the number
/// expected is kept, and taken to be one more than are left where none is
/// known. When all are done the number expected is forgotten.
pub fn progress_update(progress: BackgroundProgress, expected: Option<usize>) -> (r: (
    ProgressUpdate,
    Option<usize>,
))
    requires
        progress matches BackgroundProgress::Left(left) ==> match expected {
            Some(total) => left <= total,
            None => left < usize::MAX,
        },
    ensures
        r == match progress {
            BackgroundProgress::Left(left) => match expected {
                Some(total) => (
                    ProgressUpdate { current: (total - left) as usize, total },
                    expected,
                ),
                None => (ProgressUpdate { current: 1, total: (left + 1) as usize }, expected),
            },
            BackgroundProgress::Complete => match expected {
                Some(total) => (ProgressUpdate { current: total, total }, None),
                None => (ProgressUpdate { current: 1, total: 1 }, None),
            },
        },
{
    match progress {
        BackgroundProgress::Left(left) => {
            let total = match expected {
                Some(total) => total,
                None => left + 1,
            };
            (ProgressUpdate { current: total - left, total }, expected)
        },
        BackgroundProgress::Complete => match expected {
            Some(total) => (ProgressUpdate { current: total, total }, None),
            None => (ProgressUpdate { current: 1, total: 1 }, None),
        },
    }
}

/// How the outcome of adding files is to be shown.
#[derive(Clone, Copy, Debug, PartialEq, Eq, Structural)]
pub enum Severity {
    Error,
    Info,
    Warning,
}

/// How to show that `ok_count` of `total` files were added: as an error
/// where none was, as information where all were, and as a warning where
/// some were or there was none to add.
pub fn added_severity(ok_count: usize, total: usize) -> (r: Severity)
    ensures
        r == if total > 0 && ok_count == 0 {
            Severity::Error
        } else if total > 0 && ok_count == total {
            Severity::Info
        } else {
            Severity::Warning
        },
{
    if total > 0 {
        if ok_count == 0 {
            Severity::Error
        } else if ok_count == total {
            Severity::Info
        } else {
            Severity::Warning
        }
    } else {
        Severity::Warning
    }
}

/// Whether what is known of a file is stale: the file was changed after it
/// was last looked at, or was never looked at.
pub fn is_stale(last_check: Option<u64>, modified: u64) -> (r: bool)
    ensures
        r == match last_check {
            Some(known) => modified > known,
            None => true,
        },
{
    match last_check {
        Some(known) => modified > known,
        None => true,
    }
}

/// A letter in lower case, any other character as it is.
pub open spec fn lower(c: char) -> char {
    if 'A' <= c <= 'Z' {
        ((c as u8) + 32) as char
    } else {
        c
    }
}

/// Two texts are the same but for the case of their letters.
pub open spec fn same_ignoring_case(a: Seq<char>, b: Seq<char>) -> bool {
    a.len() == b.len() && forall|i: int| 0 <= i < a.len() ==> lower(a[i]) == lower(b[i])
}

/// A letter in lower case, any other character as it is.
fn to_lower(c: char) -> (r: char)
    ensures
        r == lower(c),
{
    if 'A' <= c && c <= 'Z' {
        ((c as u8) + 32) as char
    } else {
        c
    }
}

/// Whether two texts are the same but for the case of their letters.
pub fn eq_ignoring_case(a: &str, b: &str) -> (r: bool)
    ensures
        r == same_ignoring_case(a@, b@),
{
    let len = a.unicode_len();
    if len != b.unicode_len() {
        return false;
    }
    let mut i: usize = 0;
    while i < len
        invariant
            i <= len,
            len == a@.len(),
            len == b@.len(),
            forall|k: int| 0 <= k < i ==> lower(a@[k]) == lower(b@[k]),
        decreases len - i,
    {
        if to_lower(a.get_char(i)) != to_lower(b.get_char(i)) {
            return false;
        }
        i += 1;
    }
    true
}

/// The extension of a file name is that of a kind of file that can hold
/// metadata.
pub open spec fn is_supported_extension(extension: Seq<char>) -> bool {
    ||| same_ignoring_case(extension, "jpeg"@)
    ||| same_ignoring_case(extension, "jpg"@)
    ||| same_ignoring_case(extension, "tif"@)
    ||| same_ignoring_case(extension, "tiff"@)
    ||| same_ignoring_case(extension, "xmp"@)
    ||| same_ignoring_case(extension, "xpacket"@)
}

/// Whether a file with this extension is looked at.
pub fn supported_extension(extension: &str) -> (r: bool)
    ensures
        r == is_supported_extension(extension@),
{
    eq_ignoring_case(extension, "jpeg") || eq_ignoring_case(extension, "jpg")
        || eq_ignoring_case(extension, "tif") || eq_ignoring_case(extension, "tiff")
        || eq_ignoring_case(extension, "xmp") || eq_ignoring_case(extension, "xpacket")
}

/// The rules that carry over the fields which a document gives.
pub open spec fn ruleset_of(events: Seq<MarkupEventView>) -> Seq<RuleView> {
    rule_if(
        scalar_field(events, "caption"@).is_some(),
        list_rule(
            crate::ns::DC@,
            "dc"@,
            "title"@,
            "Alt"@,
            seq![scalar_field(events, "caption"@).unwrap()],
        ),
    ) + rule_if(
        scalar_field(events, "author"@).is_some(),
        list_rule(
            crate::ns::DC@,
            "dc"@,
            "creator"@,
            "Seq"@,
            seq![scalar_field(events, "author"@).unwrap()],
        ),
    ) + rule_if(
        scalar_field(events, "notes"@).is_some(),
        list_rule(
            crate::ns::DC@,
            "dc"@,
            "description"@,
            "Alt"@,
            seq![scalar_field(events, "notes"@).unwrap()],
        ),
    ) + rule_if(
        scalar_field(events, "categories"@).is_some(),
        list_rule(
            crate::ns::LR@,
            "lr"@,
            "hierarchicalSubject"@,
            "Bag"@,
            joined_paths(categories_of(scalar_field(events, "categories"@).unwrap()).unwrap()),
        ),
    ) + rule_if(
        bag_field(events, "keywords"@).len() > 0,
        list_rule(crate::ns::DC@, "dc"@, "subject"@, "Bag"@, bag_field(events, "keywords"@)),
    )
}

/// The rules of the fields of a document are those that the document gives.
pub proof fn lemma_ruleset(data: AcdSeeData, events: Seq<MarkupEventView>)
    requires
        holds_fields_of(data, events),
    ensures
        data.ruleset() == ruleset_of(events),
{
}

/// What is known of a file.
#[derive(Debug)]
pub enum FileState {
    /// Nothing yet.
    Init,
    NoXmpData,
    NoAcdData,
    ContainerError(ContainerError),
    XmpRewriteError(WriteError),
    InvalidAcdseeData(AcdSeeError),
    /// The bytes to write into the file.
    Ready(Vec<u8>),
    RewriteError(ContainerRewriteError),
    Complete,
    ApplyError(ContainerWriteError),
}

impl FileState {
    /// The name of the state.
    pub fn kind(&self) -> (r: &'static str)
        ensures
            r@ == match *self {
                FileState::Init => "Init"@,
                FileState::NoXmpData => "NoXmpData"@,
                FileState::NoAcdData => "NoAcdData"@,
                FileState::ContainerError(_) => "ContainerError"@,
                FileState::XmpRewriteError(_) => "XmpRewriteError"@,
                FileState::InvalidAcdseeData(_) => "InvalidAcdseeData"@,
                FileState::Ready(_) => "Ready"@,
                FileState::RewriteError(_) => "RewriteError"@,
                FileState::Complete => "Complete"@,
                FileState::ApplyError(_) => "ApplyError"@,
            },
    {
        match self {
            FileState::Init => "Init",
            FileState::NoXmpData => "NoXmpData",
            FileState::NoAcdData => "NoAcdData",
            FileState::ContainerError(_) => "ContainerError",
            FileState::XmpRewriteError(_) => "XmpRewriteError",
            FileState::InvalidAcdseeData(_) => "InvalidAcdseeData",
            FileState::Ready(_) => "Ready",
            FileState::RewriteError(_) => "RewriteError",
            FileState::Complete => "Complete",
            FileState::ApplyError(_) => "ApplyError",
        }
    }
}

/// What looking at a host comes to.
pub enum Checked {
    /// The host holds no markup.
    NoXmpData,
    /// The markup gives no field to carry over.
    NoAcdData,
    /// The markup cannot be got at.
    Unreadable(Markup),
    /// The categories or the date of the markup cannot be read.
    InvalidFields,
    /// The rule for the attribute of this name could not be run.
    RuleFailed(QNameView),
    /// The rewritten markup could not be prepared.
    Unprepared(Prepared),
    /// The bytes to write into the host.
    Ready(Seq<u8>),
}

/// What looking at a host comes to at the time `stamp`: the fields of the
/// markup give the rules, the rule for the date of the metadata comes
/// last, the rules rewrite the markup, and the rewritten markup is prepared
/// for the host.
pub open spec fn checked(container: Container, stamp: Seq<char>) -> Checked {
    match container.markup() {
        Markup::Missing => Checked::NoXmpData,
        Markup::Events(events) => if categories_fail(events) || datetime_fails(events) {
            Checked::InvalidFields
        } else if ruleset_of(events).len() == 0 {
            Checked::NoAcdData
        } else {
            match rewritten(events, ruleset_of(events).push(metadata_date_rule()), stamp) {
                Err(name) => Checked::RuleFailed(name),
                Ok(output) => match container.prepared(output) {
                    Prepared::Ready(bytes) => Checked::Ready(bytes),
                    other => Checked::Unprepared(other),
                },
            }
        },
        other => Checked::Unreadable(other),
    }
}

/// Whether a state says what looking at a host has come to.
pub open spec fn says(state: FileState, checked: Checked) -> bool {
    match checked {
        Checked::NoXmpData => state is NoXmpData,
        Checked::NoAcdData => state is NoAcdData,
        Checked::Unreadable(markup) => state matches FileState::ContainerError(error) && is_read(
            Err(error),
            markup,
        ),
        Checked::InvalidFields => state is InvalidAcdseeData,
        Checked::RuleFailed(name) => state matches FileState::XmpRewriteError(
            WriteError::RuleFailed(found),
        ) && found@ == name,
        Checked::Unprepared(prepared) => state matches FileState::RewriteError(error)
            && is_prepared(Err(error), prepared),
        Checked::Ready(bytes) => state matches FileState::Ready(ready) && ready@ == bytes,
    }
}

/// Looks at a host, with `stamp` as the time that time stamps are set to.
pub fn check_rewrite_at(container: &Container, stamp: &str) -> (r: FileState)
    ensures
        says(r, checked(*container, stamp@)),
{
    let xmp = match container.read_xmp() {
        Ok(Some(xmp)) => xmp,
        Ok(None) => {
            return FileState::NoXmpData;
        },
        Err(error) => {
            return FileState::ContainerError(error);
        },
    };
    let acdsee = match xmp.acdsee_data() {
        Ok(acdsee) => acdsee,
        Err(error) => {
            return FileState::InvalidAcdseeData(error);
        },
    };
    proof {
        lemma_ruleset(acdsee, xmp@);
    }
    let mut rules = acdsee.to_ruleset();
    if rules.len() == 0 {
        return FileState::NoAcdData;
    }
    let ghost carried = rules_view(rules@);
    rules.push(xmp_metadata_date());
    assert(rules_view(rules@) =~= carried.push(metadata_date_rule()));
    let rewritten = match xmp.write_events_at(rules, stamp) {
        Ok(rewritten) => rewritten,
        Err(error) => {
            return FileState::XmpRewriteError(error);
        },
    };
    match container.prepare_write(&rewritten) {
        Ok(packet) => FileState::Ready(packet),
        Err(error) => FileState::RewriteError(error),
    }
}

/// Looks at a host, at the time of the call.
pub fn check_rewrite(container: &Container) -> (r: FileState)
    ensures
        exists|stamp: Seq<char>|
            is_timestamp(stamp) && says(r, #[trigger] checked(*container, stamp)),
{
    let stamp = SetToCurrentDateTime::now();
    check_rewrite_at(container, stamp.as_str())
}

/// Writes prepared bytes into a host: in place of a file that is markup as
/// a whole, and in place of the body of the packet of a file that embeds
/// one.
pub fn apply(container: &mut Container, bytes: &[u8]) -> (r: FileState)
    ensures
        final(container).kind() == old(container).kind(),
        final(container).span() == old(container).span(),
        old(container).kind() == ContainerKind::Xmp ==> r is Complete && final(container).bytes()
            == bytes@,
        old(container).kind() == ContainerKind::XPacket ==> match old(container).body() {
            None => r matches FileState::ApplyError(ContainerWriteError::MissingXPacket)
                && final(container).bytes() == old(container).bytes(),
            Some(span) => if bytes@.len() == span.1 - span.0 {
                r is Complete && final(container).bytes() == with_body(
                    old(container).bytes(),
                    span,
                    bytes@,
                )
            } else {
                r matches FileState::ApplyError(ContainerWriteError::NotEnoughSpace)
                    && final(container).bytes() == old(container).bytes()
            },
        },
{
    match container.write(bytes) {
        Ok(()) => FileState::Complete,
        Err(error) => FileState::ApplyError(error),
    }
}

} // verus!
