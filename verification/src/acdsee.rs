//! The fields that the catalog keeps in a document, and the rules that
//! carry them over to the target vocabulary.

use vstd::prelude::*;
use vstd::string::StrSliceExecFns;

use crate::markup::MarkupEventView;
use crate::tags::{categories_of, FromAcdSee, TagHierarchy};
use crate::text::{opt_string, texts_view};
use crate::xmp::rule::{rules_view, RewriteRule, RuleView};
use crate::xmp::rules::{
    joined_paths, list_rule, set_dc_creator, set_dc_description, set_dc_subject, set_dc_title,
    set_lr_hierarchical_subject,
};
use crate::xmp::{bag_field, scalar_field, XmpData};

verus! {

/// The date library's date and time without a zone.
#[verifier::external_type_specification]
#[verifier::external_body]
pub struct ExNaiveDateTime(chrono::NaiveDateTime);

/// The error of the date library's parsers.
#[verifier::external_type_specification]
#[verifier::external_body]
pub struct ExDateParseError(chrono::ParseError);

/// The date and time that the date library reads from a text, `None` where
/// it reports an error.
pub uninterp spec fn parsed_datetime(text: Seq<char>) -> Option<chrono::NaiveDateTime>;

/// `str::parse` for `chrono::NaiveDateTime`: the date and time that the
/// text holds in the form `%Y-%m-%dT%H:%M:%S%.f`.
#[verifier::external_body]
fn parse_datetime(text: &str) -> (r: Result<chrono::NaiveDateTime, chrono::ParseError>)
    ensures
        match r {
            Ok(datetime) => parsed_datetime(text@) == Some(datetime),
            Err(_) => parsed_datetime(text@).is_none(),
        },
{
    text.parse::<chrono::NaiveDateTime>()
}

/// Whether a character is a decimal digit.
pub open spec fn is_digit(c: char) -> bool {
    '0' <= c <= '9'
}

/// Whether all characters of a text are decimal digits.
pub open spec fn all_digits(digits: Seq<char>) -> bool {
    forall|i: int| 0 <= i < digits.len() ==> is_digit(#[trigger] digits[i])
}

/// The number that decimal digits write.
pub open spec fn decimal_value(digits: Seq<char>) -> int
    decreases digits.len(),
{
    if digits.len() == 0 {
        0
    } else {
        decimal_value(digits.drop_last()) * 10 + (digits.last() as int - '0' as int)
    }
}

/// The number that a text writes: decimal digits, at least one, behind at
/// most one sign, and nothing else; `None` for any other text and for a
/// number beyond the range of `i32`.
pub open spec fn decimal_i32(text: Seq<char>) -> Option<i32> {
    let signed = text.len() > 0 && (text[0] == '-' || text[0] == '+');
    let digits = if signed {
        text.drop_first()
    } else {
        text
    };
    let value = if signed && text[0] == '-' {
        -decimal_value(digits)
    } else {
        decimal_value(digits)
    };
    if digits.len() > 0 && all_digits(digits) && i32::MIN <= value <= i32::MAX {
        Some(value as i32)
    } else {
        None
    }
}

/// Decimal digits write no negative number.
proof fn lemma_decimal_value_is_natural(digits: Seq<char>)
    requires
        forall|i: int| 0 <= i < digits.len() ==> is_digit(#[trigger] digits[i]),
    ensures
        decimal_value(digits) >= 0,
    decreases digits.len(),
{
    if digits.len() > 0 {
        assert(is_digit(digits[digits.len() - 1]));
        assert forall|i: int| 0 <= i < digits.drop_last().len() implies is_digit(
            #[trigger] digits.drop_last()[i],
        ) by {
            assert(digits.drop_last()[i] == digits[i]);
        }
        lemma_decimal_value_is_natural(digits.drop_last());
    }
}

/// More digits write no smaller number.
proof fn lemma_decimal_value_grows(digits: Seq<char>, n: int)
    requires
        0 <= n <= digits.len(),
        forall|i: int| 0 <= i < digits.len() ==> is_digit(#[trigger] digits[i]),
    ensures
        decimal_value(digits.take(n)) <= decimal_value(digits),
    decreases digits.len() - n,
{
    if n < digits.len() {
        let head = digits.drop_last();
        assert forall|i: int| 0 <= i < head.len() implies is_digit(#[trigger] head[i]) by {
            assert(head[i] == digits[i]);
        }
        assert(is_digit(digits[digits.len() - 1]));
        lemma_decimal_value_grows(head, n);
        lemma_decimal_value_is_natural(head);
        assert(head.take(n) =~= digits.take(n));
    } else {
        assert(digits.take(n) =~= digits);
    }
}

/// The number that a text writes.
pub fn parse_i32(text: &str) -> (r: Option<i32>)
    ensures
        r == decimal_i32(text@),
{
    let len = text.unicode_len();
    if len == 0 {
        return None;
    }
    let first = text.get_char(0);
    let negative = first == '-';
    let signed = negative || first == '+';
    let start: usize = if signed {
        1
    } else {
        0
    };
    if start == len {
        return None;
    }
    let ghost digits = if signed {
        text@.drop_first()
    } else {
        text@
    };
    let mut value: i64 = 0;
    let mut i: usize = start;
    assert(digits.take(0) =~= Seq::<char>::empty());
    while i < len
        invariant
            start <= i <= len,
            len == text@.len(),
            len > 0,
            signed == (text@[0] == '-' || text@[0] == '+'),
            negative == (text@[0] == '-'),
            digits == if signed {
                text@.drop_first()
            } else {
                text@
            },
            start == if signed {
                1usize
            } else {
                0usize
            },
            digits.len() == len - start,
            forall|k: int| 0 <= k < digits.len() ==> digits[k] == text@[start + k],
            forall|k: int| 0 <= k < i - start ==> is_digit(#[trigger] digits[k]),
            value == decimal_value(digits.take(i - start)),
            0 <= value <= 2147483648,
        decreases len - i,
    {
        let c = text.get_char(i);
        if !('0' <= c && c <= '9') {
            assert(!is_digit(digits[i - start]));
            return None;
        }
        let digit: i64 = (c as u8 - 48) as i64;
        let next: i64 = value * 10 + digit;
        proof {
            let seen = digits.take(i - start + 1);
            assert(seen.drop_last() =~= digits.take(i - start));
            assert(seen.last() == c);
            assert(next == decimal_value(seen));
        }
        if next > 2147483648 {
            proof {
                if all_digits(digits) {
                    lemma_decimal_value_grows(digits, i - start + 1);
                }
            }
            return None;
        }
        value = next;
        i += 1;
    }
    assert(digits.take(i - start) =~= digits);
    if negative {
        Some((-value) as i32)
    } else if value > 2147483647 {
        None
    } else {
        Some(value as i32)
    }
}

/// The rating that a text gives: the number it writes, else 0.
pub open spec fn rating_of(text: Seq<char>) -> i32 {
    match decimal_i32(text) {
        Some(rating) => rating,
        None => 0,
    }
}

/// Whether a text spells `true`, in letters of either case.
pub open spec fn spells_true(text: Seq<char>) -> bool {
    &&& text.len() == 4
    &&& (text[0] == 't' || text[0] == 'T')
    &&& (text[1] == 'r' || text[1] == 'R')
    &&& (text[2] == 'u' || text[2] == 'U')
    &&& (text[3] == 'e' || text[3] == 'E')
}

/// Whether a text spells `true`, in letters of either case.
pub fn is_true_text(text: &str) -> (r: bool)
    ensures
        r == spells_true(text@),
{
    if text.unicode_len() != 4 {
        return false;
    }
    let a = text.get_char(0);
    let b = text.get_char(1);
    let c = text.get_char(2);
    let d = text.get_char(3);
    (a == 't' || a == 'T') && (b == 'r' || b == 'R') && (c == 'u' || c == 'U') && (d == 'e' || d
        == 'E')
}

/// Why the catalog's fields could not be read.
#[derive(Debug)]
pub enum AcdSeeError {
    /// The categories are malformed markup.
    Xml(xml::reader::Error),
    /// The date is malformed.
    Date(chrono::ParseError),
}

/// The fields that the catalog keeps in a document.
#[derive(Debug)]
pub struct AcdSeeData {
    pub caption: Option<String>,
    pub datetime: Option<chrono::NaiveDateTime>,
    pub author: Option<String>,
    pub rating: Option<i32>,
    pub notes: Option<String>,
    pub tagged: Option<bool>,
    pub categories: Option<TagHierarchy>,
    pub collections: Option<String>,
    pub keywords: Vec<String>,
}

impl Default for AcdSeeData {
    fn default() -> (r: Self)
        ensures
            r.caption.is_none(),
            r.datetime.is_none(),
            r.author.is_none(),
            r.rating.is_none(),
            r.notes.is_none(),
            r.tagged.is_none(),
            r.categories.is_none(),
            r.collections.is_none(),
            r.keywords@.len() == 0,
    {
        AcdSeeData {
            caption: None,
            datetime: None,
            author: None,
            rating: None,
            notes: None,
            tagged: None,
            categories: None,
            collections: None,
            keywords: Vec::new(),
        }
    }
}

/// The rule that a field gives, as a list of no rule or one.
pub open spec fn rule_if(present: bool, rule: RuleView) -> Seq<RuleView> {
    if present {
        seq![rule]
    } else {
        Seq::empty()
    }
}

impl AcdSeeData {
    /// The rules that carry the fields over: title from caption, creator
    /// from author, description from notes, hierarchical subject from the
    /// categories, subject from the keywords; in this order, and one for
    /// each field that is there.
    pub open spec fn ruleset(self) -> Seq<RuleView> {
        rule_if(
            self.caption.is_some(),
            list_rule(
                crate::ns::DC@,
                "dc"@,
                "title"@,
                "Alt"@,
                seq![self.caption.unwrap()@],
            ),
        ) + rule_if(
            self.author.is_some(),
            list_rule(
                crate::ns::DC@,
                "dc"@,
                "creator"@,
                "Seq"@,
                seq![self.author.unwrap()@],
            ),
        ) + rule_if(
            self.notes.is_some(),
            list_rule(
                crate::ns::DC@,
                "dc"@,
                "description"@,
                "Alt"@,
                seq![self.notes.unwrap()@],
            ),
        ) + rule_if(
            self.categories.is_some(),
            list_rule(
                crate::ns::LR@,
                "lr"@,
                "hierarchicalSubject"@,
                "Bag"@,
                joined_paths(self.categories.unwrap()@),
            ),
        ) + rule_if(
            self.keywords@.len() > 0,
            list_rule(crate::ns::DC@, "dc"@, "subject"@, "Bag"@, texts_view(self.keywords@)),
        )
    }

    /// Whether none of the fields that hold one value is there.
    pub fn is_empty(&self) -> (r: bool)
        ensures
            r == (self.caption.is_none() && self.datetime.is_none() && self.author.is_none()
                && self.rating.is_none() && self.notes.is_none() && self.tagged.is_none()
                && self.categories.is_none() && self.collections.is_none()),
    {
        self.caption.is_none() && self.datetime.is_none() && self.author.is_none()
            && self.rating.is_none() && self.notes.is_none() && self.tagged.is_none()
            && self.categories.is_none() && self.collections.is_none()
    }

    /// The rules that carry the fields over to the target vocabulary.
    pub fn to_ruleset(&self) -> (r: Vec<RewriteRule>)
        ensures
            rules_view(r@) == self.ruleset(),
    {
        let mut result: Vec<RewriteRule> = Vec::with_capacity(8);
        assert(rules_view(result@) =~= Seq::<RuleView>::empty());
        match &self.caption {
            Some(caption) => {
                let ghost before = rules_view(result@);
                let rule = set_dc_title(caption.clone());
                result.push(rule);
                assert(rules_view(result@) =~= before.push(rule@));
            },
            None => {},
        }
        match &self.author {
            Some(author) => {
                let ghost before = rules_view(result@);
                let rule = set_dc_creator(author.clone());
                result.push(rule);
                assert(rules_view(result@) =~= before.push(rule@));
            },
            None => {},
        }
        match &self.notes {
            Some(notes) => {
                let ghost before = rules_view(result@);
                let rule = set_dc_description(notes.clone());
                result.push(rule);
                assert(rules_view(result@) =~= before.push(rule@));
            },
            None => {},
        }
        match &self.categories {
            Some(categories) => {
                let ghost before = rules_view(result@);
                let rule = set_lr_hierarchical_subject(categories);
                result.push(rule);
                assert(rules_view(result@) =~= before.push(rule@));
            },
            None => {},
        }
        if self.keywords.len() > 0 {
            let ghost before = rules_view(result@);
            let rule = set_dc_subject(crate::text::clone_texts(&self.keywords));
            result.push(rule);
            assert(rules_view(result@) =~= before.push(rule@));
        }
        assert(rules_view(result@) =~= self.ruleset());
        result
    }
}

/// The date that a document gives: none where the field is missing or
/// empty.
pub open spec fn datetime_text(events: Seq<MarkupEventView>) -> Option<Seq<char>> {
    match scalar_field(events, "datetime"@) {
        Some(text) => if text.len() > 0 {
            Some(text)
        } else {
            None
        },
        None => None,
    }
}

/// The categories that a document gives cannot be read.
pub open spec fn categories_fail(events: Seq<MarkupEventView>) -> bool {
    scalar_field(events, "categories"@) matches Some(text) && categories_of(text).is_none()
}

/// The date that a document gives cannot be read.
pub open spec fn datetime_fails(events: Seq<MarkupEventView>) -> bool {
    datetime_text(events) matches Some(text) && parsed_datetime(text).is_none()
}

/// `data` holds the fields of the catalog that `events` give.
pub open spec fn holds_fields_of(data: AcdSeeData, events: Seq<MarkupEventView>) -> bool {
    &&& opt_string(data.caption) == scalar_field(events, "caption"@)
    &&& match scalar_field(events, "categories"@) {
        Some(text) => data.categories matches Some(tags) && categories_of(text) == Some(tags@),
        None => data.categories.is_none(),
    }
    &&& match datetime_text(events) {
        Some(text) => data.datetime.is_some() && data.datetime == parsed_datetime(text),
        None => data.datetime.is_none(),
    }
    &&& opt_string(data.author) == scalar_field(events, "author"@)
    &&& match scalar_field(events, "rating"@) {
        Some(text) => data.rating == Some(rating_of(text)),
        None => data.rating.is_none(),
    }
    &&& opt_string(data.notes) == scalar_field(events, "notes"@)
    &&& match scalar_field(events, "tagged"@) {
        Some(text) => data.tagged == Some(spells_true(text)),
        None => data.tagged.is_none(),
    }
    &&& opt_string(data.collections) == scalar_field(events, "collections"@)
    &&& texts_view(data.keywords@) == bag_field(events, "keywords"@)
}

impl XmpData {
    /// The fields that the catalog keeps in the document. Categories that
    /// are no markup are reported before a date that is no date.
    pub fn acdsee_data(&self) -> (r: Result<AcdSeeData, AcdSeeError>)
        ensures
            match r {
                Ok(data) => !categories_fail(self@) && !datetime_fails(self@) && holds_fields_of(
                    data,
                    self@,
                ),
                Err(AcdSeeError::Xml(_)) => categories_fail(self@),
                Err(AcdSeeError::Date(_)) => !categories_fail(self@) && datetime_fails(self@),
            },
    {
        let caption = self.acdsee_tag_value("caption");
        let categories = match self.acdsee_tag_value("categories") {
            Some(text) => match TagHierarchy::from_acdsee(text.as_str()) {
                Ok(tags) => Some(tags),
                Err(error) => {
                    return Err(AcdSeeError::Xml(error));
                },
            },
            None => None,
        };
        let datetime = match self.acdsee_tag_value("datetime") {
            Some(text) => if text.as_str().is_empty() {
                None
            } else {
                match parse_datetime(text.as_str()) {
                    Ok(datetime) => Some(datetime),
                    Err(error) => {
                        return Err(AcdSeeError::Date(error));
                    },
                }
            },
            None => None,
        };
        let author = self.acdsee_tag_value("author");
        let rating = match self.acdsee_tag_value("rating") {
            Some(text) => match parse_i32(text.as_str()) {
                Some(rating) => Some(rating),
                None => Some(0),
            },
            None => None,
        };
        let notes = self.acdsee_tag_value("notes");
        let tagged = match self.acdsee_tag_value("tagged") {
            Some(text) => Some(is_true_text(text.as_str())),
            None => None,
        };
        let collections = self.acdsee_tag_value("collections");
        let keywords = self.acdsee_bag_value("keywords");
        Ok(
            AcdSeeData {
                caption,
                datetime,
                author,
                rating,
                notes,
                tagged,
                categories,
                collections,
                keywords,
            },
        )
    }
}

} // verus!
