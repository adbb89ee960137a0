//! Selection of objects by their tags.
//!
//! A selector is a list of groups separated by `,`; a group is a list of
//! conditions separated by `+`; a condition is a key, or a key and a value
//! separated by `~`. An object is selected when, for one of the groups, it
//! meets all conditions.

use crate::osm::{tag_value, GeoObject, Tags};
use vstd::prelude::*;
use vstd::string::*;

verus! {

/// One condition on the tags of an object.
#[derive(PartialEq, Debug, Clone)]
pub enum Condition {
    /// The key has a value.
    TagPresence(String),
    /// The key has this value.
    ValueMatch(String, String),
}

/// A condition as plain values.
pub enum ConditionView {
    TagPresence(Seq<char>),
    ValueMatch(Seq<char>, Seq<char>),
}

impl View for Condition {
    type V = ConditionView;

    open spec fn view(&self) -> ConditionView {
        match self {
            Condition::TagPresence(key) => ConditionView::TagPresence(key@),
            Condition::ValueMatch(key, value) => ConditionView::ValueMatch(key@, value@),
        }
    }
}

impl Condition {
    /// The condition that `tag` has the given value, or any value where
    /// none is given.
    pub fn new(tag: &str, value: Option<&str>) -> (condition: Condition)
        ensures
            condition@ == match value {
                Some(v) => ConditionView::ValueMatch(tag@, v@),
                None => ConditionView::TagPresence(tag@),
            },
    {
        if let Some(value) = value {
            return Condition::ValueMatch(tag.to_owned(), value.to_owned());
        }
        Condition::TagPresence(tag.to_owned())
    }
}

/// Conditions that must all be met.
#[derive(PartialEq, Debug, Clone)]
pub struct Group {
    pub conditions: Vec<Condition>,
}

impl View for Group {
    type V = Seq<ConditionView>;

    open spec fn view(&self) -> Seq<ConditionView> {
        self.conditions@.map_values(|c: Condition| c@)
    }
}

/// The views of the groups of a list.
pub open spec fn group_views(groups: Seq<Group>) -> Seq<Seq<ConditionView>> {
    groups.map_values(|g: Group| g@)
}

/// The pieces of a text between the separators. A text without separator
/// is one piece; the empty text is one empty piece.
pub open spec fn split_spec(text: Seq<char>, separator: char) -> Seq<Seq<char>>
    decreases text.len(),
{
    if text.len() == 0 {
        seq![Seq::empty()]
    } else {
        let rest = split_spec(text.drop_last(), separator);
        if text.last() == separator {
            rest.push(Seq::empty())
        } else {
            rest.update(rest.len() - 1, rest.last().push(text.last()))
        }
    }
}

/// The condition that a text stands for: a key and a value where it holds
/// a `~`, split at the first one; else a key.
pub open spec fn condition_of(text: Seq<char>) -> ConditionView {
    match text.index_of_first('~') {
        Some(at) => ConditionView::ValueMatch(
            text.subrange(0, at),
            text.subrange(at + 1, text.len() as int),
        ),
        None => ConditionView::TagPresence(text),
    }
}

/// The group that a text stands for: one condition for each piece between
/// the `+`.
pub open spec fn group_of(text: Seq<char>) -> Seq<ConditionView> {
    split_spec(text, '+').map_values(|piece: Seq<char>| condition_of(piece))
}

/// The groups that a selector stands for: one for each piece between the
/// `,`.
pub open spec fn groups_of(text: Seq<char>) -> Seq<Seq<ConditionView>> {
    split_spec(text, ',').map_values(|piece: Seq<char>| group_of(piece))
}

/// The views of the texts of a list.
pub open spec fn text_views(texts: Seq<String>) -> Seq<Seq<char>> {
    texts.map_values(|t: String| t@)
}

/// Splits a text at each separator.
fn split_on(text: &str, separator: char) -> (pieces: Vec<String>)
    ensures
        text_views(pieces@) == split_spec(text@, separator),
{
    let n: usize = text.unicode_len();
    let mut pieces: Vec<String> = Vec::new();
    let mut start: usize = 0;
    let mut k: usize = 0;
    proof {
        assert(text@.take(0) =~= Seq::<char>::empty());
        assert(text@.subrange(0, 0) =~= Seq::<char>::empty());
        assert(text_views(pieces@).push(Seq::<char>::empty()) =~= seq![Seq::<char>::empty()]);
    }
    while k < n
        invariant
            n == text@.len(),
            start <= k <= n,
            split_spec(text@.take(k as int), separator) == text_views(pieces@).push(
                text@.subrange(start as int, k as int),
            ),
        decreases n - k,
    {
        let c = text.get_char(k);
        let ghost before = text_views(pieces@);
        let ghost part = text@.subrange(start as int, k as int);
        proof {
            assert(text@.take(k as int + 1).drop_last() =~= text@.take(k as int));
            assert(text@.take(k as int + 1).last() == c);
        }
        if c == separator {
            let piece = text.substring_char(start, k);
            pieces.push(piece.to_owned());
            start = k + 1;
            proof {
                assert(text_views(pieces@) =~= before.push(part));
                assert(text@.subrange(start as int, k as int + 1) =~= Seq::<char>::empty());
            }
        } else {
            proof {
                assert(text@.subrange(start as int, k as int + 1) =~= part.push(c));
                assert(before.push(part).update(before.len() as int, part.push(c)) =~= before.push(
                    part.push(c),
                ));
            }
        }
        k = k + 1;
    }
    let ghost before = text_views(pieces@);
    let piece = text.substring_char(start, n);
    pieces.push(piece.to_owned());
    proof {
        assert(text@.take(n as int) =~= text@);
        assert(text_views(pieces@) =~= before.push(text@.subrange(start as int, n as int)));
    }
    pieces
}

/// Reads one condition.
pub fn parse_condition(condition_str: &str) -> (condition: Condition)
    ensures
        condition@ == condition_of(condition_str@),
{
    let n: usize = condition_str.unicode_len();
    let mut k: usize = 0;
    while k < n
        invariant
            n == condition_str@.len(),
            k <= n,
            forall|j: int| 0 <= j < k ==> condition_str@[j] != '~',
        decreases n - k,
    {
        if condition_str.get_char(k) == '~' {
            proof {
                let text = condition_str@;
                assert(text[k as int] == '~');
                text.index_of_first_ensures('~');
            }
            let key = condition_str.substring_char(0, k);
            let value = condition_str.substring_char(k + 1, n);
            return Condition::ValueMatch(key.to_owned(), value.to_owned());
        }
        k = k + 1;
    }
    proof {
        condition_str@.index_of_first_ensures('~');
    }
    Condition::TagPresence(condition_str.to_owned())
}

/// Reads one group.
pub fn parse_group(group_str: &str) -> (group: Group)
    ensures
        group@ == group_of(group_str@),
{
    let condition_strs = split_on(group_str, '+');
    let mut conditions: Vec<Condition> = Vec::new();
    let mut k: usize = 0;
    while k < condition_strs.len()
        invariant
            k <= condition_strs@.len(),
            conditions@.len() == k,
            forall|j: int| 0 <= j < k ==> (#[trigger] conditions@[j])@ == condition_of(condition_strs@[j]@),
        decreases condition_strs@.len() - k,
    {
        conditions.push(parse_condition(condition_strs[k].as_str()));
        k = k + 1;
    }
    let group = Group { conditions };
    assert(group@ =~= text_views(condition_strs@).map_values(|piece: Seq<char>| condition_of(piece)));
    group
}

/// Reads a selector into its groups.
pub fn parse(selector_str: &str) -> (groups: Vec<Group>)
    ensures
        group_views(groups@) == groups_of(selector_str@),
{
    let group_strs = split_on(selector_str, ',');
    let mut groups: Vec<Group> = Vec::new();
    let mut k: usize = 0;
    while k < group_strs.len()
        invariant
            k <= group_strs@.len(),
            groups@.len() == k,
            forall|j: int| 0 <= j < k ==> (#[trigger] groups@[j])@ == group_of(group_strs@[j]@),
        decreases group_strs@.len() - k,
    {
        groups.push(parse_group(group_strs[k].as_str()));
        k = k + 1;
    }
    assert(group_views(groups@) =~= text_views(group_strs@).map_values(
        |piece: Seq<char>| group_of(piece),
    ));
    groups
}

/// Whether the tags meet the condition.
pub open spec fn holds(tags: Seq<(Seq<char>, Seq<char>)>, condition: ConditionView) -> bool {
    match condition {
        ConditionView::TagPresence(key) => tag_value(tags, key).is_some(),
        ConditionView::ValueMatch(key, value) => tag_value(tags, key) == Some(value),
    }
}

/// Whether the tags meet all conditions of the group.
pub open spec fn holds_all(tags: Seq<(Seq<char>, Seq<char>)>, group: Seq<ConditionView>) -> bool {
    forall|c: int| 0 <= c < group.len() ==> holds(tags, #[trigger] group[c])
}

/// Whether the tags meet all conditions of one of the groups.
pub open spec fn selected(tags: Seq<(Seq<char>, Seq<char>)>, groups: Seq<Seq<ConditionView>>) -> bool {
    exists|g: int| 0 <= g < groups.len() && holds_all(tags, #[trigger] groups[g])
}

/// Tests one condition.
pub fn check_condition(tags: &Tags, condition: &Condition) -> (met: bool)
    ensures
        met == holds(tags@, condition@),
{
    match condition {
        Condition::TagPresence(key) => tags.contains_key(key.as_str()),
        Condition::ValueMatch(key, value) => tags.contains(key.as_str(), value.as_str()),
    }
}

/// Tests all conditions of a group.
pub fn check_group(tags: &Tags, group: &Group) -> (met: bool)
    ensures
        met == holds_all(tags@, group@),
{
    let mut k: usize = 0;
    while k < group.conditions.len()
        invariant
            k <= group.conditions@.len(),
            forall|c: int| 0 <= c < k ==> holds(tags@, #[trigger] group@[c]),
        decreases group.conditions@.len() - k,
    {
        assert(group@[k as int] == group.conditions@[k as int]@);
        if !check_condition(tags, &group.conditions[k]) {
            return false;
        }
        k = k + 1;
    }
    true
}

/// Whether the tags are selected by one of the groups.
pub fn filter_tags(tags: &Tags, groups: &[Group]) -> (met: bool)
    ensures
        met == selected(tags@, group_views(groups@)),
{
    let mut k: usize = 0;
    while k < groups.len()
        invariant
            k <= groups@.len(),
            forall|g: int| 0 <= g < k ==> !holds_all(tags@, #[trigger] group_views(groups@)[g]),
        decreases groups@.len() - k,
    {
        assert(group_views(groups@)[k as int] == groups@[k as int]@);
        if check_group(tags, &groups[k]) {
            return true;
        }
        k = k + 1;
    }
    false
}

/// Things that a list of groups can select.
pub trait Filter {
    /// Whether one of the groups selects this.
    fn filter(&self, groups: &[Group]) -> bool;
}

impl Filter for GeoObject {
    /// An object is selected by its tags.
    fn filter(&self, groups: &[Group]) -> (met: bool)
        ensures
            met == selected(self.spec_tags()@, group_views(groups@)),
    {
        filter_tags(self.tags(), groups)
    }
}

/// Whether one of the groups selects the object.
pub fn filter(obj: &GeoObject, groups: &Vec<Group>) -> (met: bool)
    ensures
        met == selected(obj.spec_tags()@, group_views(groups@)),
{
    filter_tags(obj.tags(), groups.as_slice())
}

/// The decimal digits of a number, without leading zeros.
pub open spec fn decimal(n: nat) -> Seq<char>
    decreases n,
{
    if n < 10 {
        seq![(('0' as nat + n) as u8) as char]
    } else {
        decimal(n / 10).push((('0' as nat + n % 10) as u8) as char)
    }
}

/// The decimal text of a level.
pub open spec fn level_text(level: u8) -> Seq<char> {
    decimal(level as nat)
}

/// `ToString::to_string` of a `u8`: its decimal digits, without sign and
/// without leading zeros.
#[verifier::external_body]
fn level_to_text(level: u8) -> (text: String)
    ensures
        text@ == level_text(level),
{
    level.to_string()
}

/// The levels of the boundaries that are read where none are asked for.
pub fn default_levels() -> (levels: Vec<u8>)
    ensures
        levels@ == seq![4u8, 6u8, 8u8, 9u8, 10u8],
{
    let mut levels: Vec<u8> = Vec::new();
    levels.push(4);
    levels.push(6);
    levels.push(8);
    levels.push(9);
    levels.push(10);
    assert(levels@ =~= seq![4u8, 6u8, 8u8, 9u8, 10u8]);
    levels
}

/// The group that selects the administrative boundaries of one level.
pub open spec fn admin_group(level: u8) -> Seq<ConditionView> {
    seq![
        ConditionView::ValueMatch("boundary"@, "administrative"@),
        ConditionView::ValueMatch("admin_level"@, level_text(level)),
    ]
}

/// The groups that select the administrative boundaries of the given
/// levels: one group for each level.
pub fn build_admin_group(levels: Vec<u8>) -> (groups: Vec<Group>)
    ensures
        group_views(groups@) == levels@.map_values(|level: u8| admin_group(level)),
{
    let mut groups: Vec<Group> = Vec::new();
    let mut k: usize = 0;
    while k < levels.len()
        invariant
            k <= levels@.len(),
            groups@.len() == k,
            forall|j: int| 0 <= j < k ==> (#[trigger] groups@[j])@ == admin_group(levels@[j]),
        decreases levels@.len() - k,
    {
        let text = level_to_text(levels[k]);
        let level_match = Condition::new("admin_level", Some(text.as_str()));
        let boundary_match = Condition::new("boundary", Some("administrative"));
        let mut conditions: Vec<Condition> = Vec::new();
        conditions.push(boundary_match);
        conditions.push(level_match);
        let group = Group { conditions };
        assert(group@ =~= admin_group(levels@[k as int]));
        groups.push(group);
        k = k + 1;
    }
    assert(group_views(groups@) =~= levels@.map_values(|level: u8| admin_group(level)));
    groups
}

/// The kinds of highway that count as streets.
pub open spec fn street_kinds() -> Seq<Seq<char>> {
    seq![
        "primary"@,
        "secondary"@,
        "tertiary"@,
        "residential"@,
        "service"@,
        "living_street"@,
        "pedestrian"@,
    ]
}

/// The condition on the name of a street: the given name, or any name.
pub open spec fn name_condition(name: Option<Seq<char>>) -> ConditionView {
    match name {
        Some(n) => ConditionView::ValueMatch("name"@, n),
        None => ConditionView::TagPresence("name"@),
    }
}

/// The text of a name that may be missing.
pub open spec fn text_of(name: Option<&str>) -> Option<Seq<char>> {
    match name {
        Some(n) => Some(n@),
        None => None,
    }
}

/// The group that selects the streets of one kind of highway.
pub open spec fn street_group(kind: Seq<char>, name: Option<Seq<char>>) -> Seq<ConditionView> {
    seq![ConditionView::ValueMatch("highway"@, kind), name_condition(name)]
}

/// The groups that select the streets: one group for each kind of highway,
/// each with the condition on the name.
pub open spec fn street_groups(name: Option<Seq<char>>) -> Seq<Seq<ConditionView>> {
    Seq::new(street_kinds().len(), |k: int| street_group(street_kinds()[k], name))
}

/// The groups that select the streets of the given name, or of any name.
pub fn build_street_group(name: Option<&str>) -> (groups: Vec<Group>)
    ensures
        group_views(groups@) == street_groups(text_of(name)),
{
    let mut values: Vec<&str> = Vec::new();
    values.push("primary");
    values.push("secondary");
    values.push("tertiary");
    values.push("residential");
    values.push("service");
    values.push("living_street");
    values.push("pedestrian");
    let mut groups: Vec<Group> = Vec::new();
    let mut k: usize = 0;
    while k < values.len()
        invariant
            k <= values@.len(),
            values@.len() == 7,
            forall|j: int| 0 <= j < 7 ==> (#[trigger] values@[j])@ == street_kinds()[j],
            groups@.len() == k,
            forall|j: int|
                0 <= j < k ==> (#[trigger] groups@[j])@ == street_group(
                    street_kinds()[j],
                    text_of(name),
                ),
        decreases values@.len() - k,
    {
        let highway_match = Condition::new("highway", Some(values[k]));
        let name_match = Condition::new("name", name);
        let mut conditions: Vec<Condition> = Vec::new();
        conditions.push(highway_match);
        conditions.push(name_match);
        let group = Group { conditions };
        assert(group@ =~= street_group(street_kinds()[k as int], text_of(name)));
        groups.push(group);
        k = k + 1;
    }
    assert(group_views(groups@) =~= street_groups(text_of(name)));
    groups
}

} // verus!
