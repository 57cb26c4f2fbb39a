//! A compiled regular expression, and what a match selects from a line.
use vstd::prelude::*;
use vstd::string::*;
use regex::Regex;
use crate::text::{decimal, index_of_text, parse_index, usize_text};

verus! {

#[verifier::external_type_specification]
#[verifier::external_body]
pub struct ExRegex(Regex);

/// Whether `regex` accepts the pattern text (its syntax and its size limit).
pub uninterp spec fn pattern_compiles(pattern: Seq<char>) -> bool;

/// The number of capture groups of a pattern, the whole match included.
pub uninterp spec fn capture_count(pattern: Seq<char>) -> nat;

/// The names of a pattern's capture groups, by index; `None` for an unnamed one.
pub uninterp spec fn capture_names_of(pattern: Seq<char>) -> Seq<Option<Seq<char>>>;

/// The text of capture group `index` in the leftmost-first match of the pattern
/// in `line`; `None` if nothing matches or that group took no part in the match.
pub uninterp spec fn capture_at(pattern: Seq<char>, line: Seq<char>, index: nat) -> Option<
    Seq<char>,
>;

/// The text of the capture group called `name` in the leftmost-first match of the
/// pattern in `line`; `None` if nothing matches or that group took no part in it.
pub uninterp spec fn named_capture_at(pattern: Seq<char>, line: Seq<char>, name: Seq<char>) -> Option<
    Seq<char>,
>;

pub open spec fn opt_view(o: Option<String>) -> Option<Seq<char>> {
    match o {
        Some(s) => Some(s@),
        None => None,
    }
}

/// A regular expression together with the text it was compiled from.
pub struct Pattern {
    regex: Regex,
    source: Ghost<Seq<char>>,
}

impl View for Pattern {
    type V = Seq<char>;

    closed spec fn view(&self) -> Seq<char> {
        self.source@
    }
}

/// Relies on `Regex::new`: whether it succeeds depends on the pattern text alone.
/// The error is kept as the text that its `Display` gives.
#[verifier::external_body]
fn compile(source: &str) -> (r: Result<Regex, String>)
    ensures
        r is Ok <==> pattern_compiles(source@),
{
    Regex::new(source).map_err(|e| e.to_string())
}

/// Relies on `Regex::captures_len`: the number of groups, at least one.
#[verifier::external_body]
fn captures_len(p: &Pattern) -> (r: usize)
    ensures
        r as nat == capture_count(p@),
        r >= 1,
{
    p.regex.captures_len()
}

/// Relies on `Regex::capture_names`: the name of each group, in index order.
#[verifier::external_body]
fn capture_names(p: &Pattern) -> (r: Vec<Option<String>>)
    ensures
        r@.len() == capture_names_of(p@).len(),
        forall|i: int| 0 <= i < r@.len() ==> opt_view(#[trigger] r@[i]) == capture_names_of(p@)[i],
{
    p.regex.capture_names().map(|n| n.map(|s| s.to_string())).collect()
}

/// Relies on `Regex::captures` and `Captures::get`: the text of group `index` of the
/// first match, where there is one and that group took part in it.
#[verifier::external_body]
fn capture_by_index(p: &Pattern, line: &str, index: usize) -> (r: Option<String>)
    ensures
        opt_view(r) == capture_at(p@, line@, index as nat),
{
    p.regex.captures(line).and_then(|c| c.get(index)).map(|m| m.as_str().to_string())
}

/// Relies on `Regex::captures` and `Captures::name`: the text of the group called
/// `name` in the first match, where there is one and that group took part in it.
#[verifier::external_body]
fn capture_by_name(p: &Pattern, line: &str, name: &str) -> (r: Option<String>)
    ensures
        opt_view(r) == named_capture_at(p@, line@, name@),
{
    p.regex.captures(line).and_then(|c| c.name(name)).map(|m| m.as_str().to_string())
}

impl Pattern {
    /// Compiles `source`; fails with the engine's message where it is not a valid
    /// pattern.
    pub fn new(source: &str) -> (r: Result<Pattern, String>)
        ensures
            r is Ok <==> pattern_compiles(source@),
            r matches Ok(p) ==> p@ == source@,
    {
        match compile(source) {
            Ok(regex) => Ok(Pattern { regex, source: Ghost(source@) }),
            Err(e) => Err(e),
        }
    }
}

/// Which part of a match becomes a line's key.
pub enum GroupId {
    /// The capture group with this name.
    Name(String),
    /// The capture group at this position; 0 is the whole match.
    Index(usize),
    /// The whole match.
    Whole,
}

impl GroupId {
    /// Reads a group identifier: a decimal `usize` is an index, anything else a name.
    pub fn from(s: &str) -> (r: GroupId)
        ensures
            index_of_text(s@) matches Some(n) ==> r == GroupId::Index(n as usize),
            index_of_text(s@) is None ==> (r matches GroupId::Name(name) && name@ == s@),
    {
        match parse_index(s) {
            Some(n) => GroupId::Index(n),
            None => GroupId::Name(String::from_str(s)),
        }
    }
}

/// The key given to lines on which the selected group has no text.
pub open spec fn no_match_key() -> Seq<char> {
    seq!['*', '*', '*', 'N', 'O', '-', 'M', 'A', 'T', 'C', 'H', '*', '*', '*']
}

/// What the group identifier selects from the match of `pattern` in `line`.
pub open spec fn selected(pattern: Seq<char>, group_id: GroupId, line: Seq<char>) -> Option<
    Seq<char>,
> {
    match group_id {
        GroupId::Name(name) => named_capture_at(pattern, line, name@),
        GroupId::Index(index) => capture_at(pattern, line, index as nat),
        GroupId::Whole => capture_at(pattern, line, 0),
    }
}

/// The key of a line: the selected text, or the no-match key where there is none.
pub open spec fn key_of_capture(capture: Option<Seq<char>>) -> Seq<char> {
    match capture {
        Some(t) => t,
        None => no_match_key(),
    }
}

pub open spec fn line_key(pattern: Seq<char>, group_id: GroupId, line: Seq<char>) -> Seq<char> {
    key_of_capture(selected(pattern, group_id, line))
}

/// The key for a line, given what the group identifier selected from its match.
pub fn key_from_capture(capture: Option<String>) -> (r: String)
    ensures
        r@ == key_of_capture(opt_view(capture)),
{
    match capture {
        Some(text) => text,
        None => {
            proof {
                reveal_strlit("***NO-MATCH***");
            }
            let r = String::from_str("***NO-MATCH***");
            assert(r@ =~= no_match_key());
            r
        },
    }
}

/// Gives each line the key that a pattern and a group identifier select.
pub struct RegexMatcher<'a> {
    pub regex: &'a Pattern,
    pub group_id: &'a GroupId,
}

impl<'a> RegexMatcher<'a> {
    pub fn new(regex: &'a Pattern, group_id: &'a GroupId) -> (r: RegexMatcher<'a>)
        ensures
            r.regex == regex,
            r.group_id == group_id,
    {
        RegexMatcher { regex, group_id }
    }

    /// The key of `line`.
    pub fn extract(&self, line: &str) -> (r: String)
        ensures
            r@ == line_key(self.regex@, *self.group_id, line@),
    {
        let capture = match self.group_id {
            GroupId::Name(name) => capture_by_name(self.regex, line, name.as_str()),
            GroupId::Index(index) => capture_by_index(self.regex, line, *index),
            GroupId::Whole => capture_by_index(self.regex, line, 0),
        };
        key_from_capture(capture)
    }
}


/// Whether `opt` holds a value equal to `value`.
pub fn compare_with_option(value: &str, opt: &Option<String>) -> (r: bool)
    ensures
        r == (opt_view(*opt) == Some(value@)),
{
    match opt {
        Some(v) => *v == String::from_str(value),
        None => false,
    }
}

/// Whether the pattern has a capture group called `name`.
pub fn has_named_capture(p: &Pattern, name: &str) -> (r: bool)
    ensures
        r == capture_names_of(p@).contains(Some(name@)),
{
    let names = capture_names(p);
    let mut i: usize = 0;
    while i < names.len()
        invariant
            i <= names@.len(),
            names@.len() == capture_names_of(p@).len(),
            forall|k: int| 0 <= k < names@.len() ==> opt_view(#[trigger] names@[k]) == capture_names_of(p@)[k],
            forall|k: int| 0 <= k < i ==> capture_names_of(p@)[k] != Some(name@),
        decreases names@.len() - i,
    {
        if compare_with_option(name, &names[i]) {
            assert(capture_names_of(p@)[i as int] == Some(name@));
            return true;
        }
        i = i + 1;
    }
    proof {
        if capture_names_of(p@).contains(Some(name@)) {
            let k = choose|k: int| 0 <= k < capture_names_of(p@).len() && capture_names_of(p@)[k] == Some(name@);
            assert(capture_names_of(p@)[k] != Some(name@));
        }
    }
    false
}

/// Whether the pattern has a capture group at position `index`.
pub fn has_indexed_capture(p: &Pattern, index: usize) -> (r: bool)
    ensures
        r == (index < capture_count(p@)),
{
    index < captures_len(p)
}

/// Why a group identifier does not fit a pattern.
pub enum GroupIdError {
    /// No capture group has this name.
    UnknownName(String),
    /// The pattern has no capture group at this position.
    IndexTooLarge(usize),
}

pub open spec fn message_of(e: GroupIdError) -> Seq<char> {
    match e {
        GroupIdError::UnknownName(name) => "Group name unknown: "@ + name@,
        GroupIdError::IndexTooLarge(index) => "Group index too large: "@ + decimal(index as nat),
    }
}

impl GroupIdError {
    /// The one-line diagnostic for this error.
    pub fn message(&self) -> (r: String)
        ensures
            r@ == message_of(*self),
    {
        match self {
            GroupIdError::UnknownName(name) => {
                let head = String::from_str("Group name unknown: ");
                head.concat(name.as_str())
            },
            GroupIdError::IndexTooLarge(index) => {
                let head = String::from_str("Group index too large: ");
                let digits = usize_text(*index);
                head.concat(digits.as_str())
            },
        }
    }
}

/// Whether the group identifier names a capture group of the pattern.
pub open spec fn group_id_valid(pattern: Seq<char>, group_id: GroupId) -> bool {
    match group_id {
        GroupId::Name(name) => capture_names_of(pattern).contains(Some(name@)),
        GroupId::Index(index) => index < capture_count(pattern),
        GroupId::Whole => true,
    }
}

/// Checks the group identifier against the pattern, before any line is read.
pub fn validate_group_id(group_id: &GroupId, re: &Pattern) -> (r: Result<(), GroupIdError>)
    ensures
        r is Ok <==> group_id_valid(re@, *group_id),
        r matches Err(e) ==> match *group_id {
            GroupId::Name(name) => e matches GroupIdError::UnknownName(n) && n@ == name@,
            GroupId::Index(index) => e == GroupIdError::IndexTooLarge(index),
            GroupId::Whole => false,
        },
{
    match group_id {
        GroupId::Name(name) => {
            if !has_named_capture(re, name.as_str()) {
                Err(GroupIdError::UnknownName(name.clone()))
            } else {
                Ok(())
            }
        },
        GroupId::Index(index) => {
            if !has_indexed_capture(re, *index) {
                Err(GroupIdError::IndexTooLarge(*index))
            } else {
                Ok(())
            }
        },
        GroupId::Whole => Ok(()),
    }
}

} // verus!
