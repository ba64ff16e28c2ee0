//! An appservice registration's namespaces, compiled into regex sets, and
//! the checks of which users, aliases and rooms fall into them.

use vstd::prelude::*;
use regex::{RegexSet, RegexSetBuilder};
use crate::bytes::str_eq;
use crate::services::grant_spec::{after_colon, is_first_colon, split_colon};

verus! {

#[verifier::external_type_specification]
#[verifier::external_body]
pub struct ExRegexSet(regex::RegexSet);

#[verifier::external_type_specification]
#[verifier::external_body]
pub struct ExRegexError(regex::Error);

/// The patterns a regex set was built from, in order.
pub uninterp spec fn regex_set_patterns(set: RegexSet) -> Seq<Seq<char>>;

/// Whether a regex set was built to match without regard to case.
pub uninterp spec fn regex_set_ignores_case(set: RegexSet) -> bool;

/// Whether a regex set was built with the builder's defaults for every
/// option but case insensitivity (multi-line, dot-matches-newline, CRLF,
/// swapped greed, ignored whitespace, Unicode, line terminator, size limits).
pub uninterp spec fn regex_set_default_options(set: RegexSet) -> bool;

/// Whether `patterns` compile, with the given case setting and the builder's
/// default limits, into one regex set.
pub uninterp spec fn regex_set_builds(patterns: Seq<Seq<char>>, case_insensitive: bool) -> bool;

/// Whether one of `patterns`, compiled with the given case setting and the
/// builder's defaults for every other option, matches somewhere in
/// `haystack`.
pub uninterp spec fn regex_set_is_match(patterns: Seq<Seq<char>>, case_insensitive: bool, haystack: Seq<char>) -> bool;

/// The texts of a sequence of strings.
pub open spec fn texts(strings: Seq<String>) -> Seq<Seq<char>> {
    strings.map_values(|s: String| s@)
}

/// `regex::RegexSetBuilder::new(patterns).case_insensitive(..).build()`.
/// Claimed: the build succeeds exactly when `regex_set_builds` holds of the
/// patterns and the flag, and the set it gives holds those patterns, in order,
/// and the flag, with every other builder option at its default.
#[verifier::external_body]
fn build_regex_set(patterns: &Vec<String>, case_insensitive: bool) -> (r: Result<RegexSet, regex::Error>)
    ensures
        r is Ok <==> regex_set_builds(texts(patterns@), case_insensitive),
        r matches Ok(set) ==> regex_set_patterns(set) == texts(patterns@)
            && regex_set_ignores_case(set) == case_insensitive
            && regex_set_default_options(set),
{
    RegexSetBuilder::new(patterns.iter()).case_insensitive(case_insensitive).build()
}

/// `regex::RegexSet::is_match`. Claimed: for a set built with the builder's
/// defaults apart from case, the answer is `regex_set_is_match` of the set's
/// patterns, its case setting and the haystack. Of a set built with other
/// options (multi-line and the like) nothing is claimed.
#[verifier::external_body]
fn regex_set_matches(set: &RegexSet, haystack: &str) -> (r: bool)
    ensures
        regex_set_default_options(*set) ==> r == regex_set_is_match(
            regex_set_patterns(*set),
            regex_set_ignores_case(*set),
            haystack@,
        ),
{
    set.is_match(haystack)
}

/// The `Display` text of a `regex::Error`. Nothing is claimed of the text.
#[verifier::external_body]
fn regex_error_text(error: &regex::Error) -> String {
    error.to_string()
}

/// One namespace of a registration: a pattern and whether the appservice
/// claims what it matches exclusively.
#[derive(Clone, Debug)]
pub struct Namespace {
    pub exclusive: bool,
    pub regex: String,
}

/// The namespaces of a registration, by kind.
#[derive(Clone, Debug)]
pub struct Namespaces {
    pub users: Vec<Namespace>,
    pub aliases: Vec<Namespace>,
    pub rooms: Vec<Namespace>,
}

/// What the server reads of an appservice registration.
#[derive(Clone, Debug)]
pub struct Registration {
    pub id: String,
    pub sender_localpart: String,
    pub namespaces: Namespaces,
}

/// A namespace pattern that does not compile.
#[derive(Clone, Debug)]
pub enum AppserviceError {
    /// The compiler's message.
    InvalidRegex(String),
}

/// The patterns, in order, of the namespaces whose exclusivity is `exclusive`.
pub open spec fn namespace_patterns(ns: Seq<Namespace>, exclusive: bool) -> Seq<Seq<char>>
    decreases ns.len(),
{
    if ns.len() == 0 {
        Seq::empty()
    } else {
        let rest = namespace_patterns(ns.drop_last(), exclusive);
        if ns.last().exclusive == exclusive {
            rest.push(ns.last().regex@)
        } else {
            rest
        }
    }
}

/// Whether a group of patterns compiles: an empty group needs no set.
pub open spec fn group_builds(patterns: Seq<Seq<char>>, case_insensitive: bool) -> bool {
    patterns.len() == 0 || regex_set_builds(patterns, case_insensitive)
}

/// Whether both groups of a list of namespaces compile.
pub open spec fn namespaces_build(ns: Seq<Namespace>, case_sensitive: bool) -> bool {
    &&& group_builds(namespace_patterns(ns, true), !case_sensitive)
    &&& group_builds(namespace_patterns(ns, false), !case_sensitive)
}

/// Whether `set` is the compiled group of `patterns`: absent when the group is
/// empty, else a set of exactly those patterns with the case setting.
pub open spec fn compiled_group(set: Option<RegexSet>, patterns: Seq<Seq<char>>, case_insensitive: bool) -> bool {
    match set {
        None => patterns.len() == 0,
        Some(s) => patterns.len() > 0 && regex_set_patterns(s) == patterns
            && regex_set_ignores_case(s) == case_insensitive && regex_set_default_options(s),
    }
}

/// Whether an optional set, when present, was built with the builder's
/// defaults apart from case.
pub open spec fn group_default(set: Option<RegexSet>) -> bool {
    match set {
        None => true,
        Some(s) => regex_set_default_options(s),
    }
}

/// Whether an optional set matches `haystack`; an absent set matches nothing.
pub open spec fn group_matches(set: Option<RegexSet>, haystack: Seq<char>) -> bool {
    match set {
        None => false,
        Some(s) => regex_set_is_match(regex_set_patterns(s), regex_set_ignores_case(s), haystack),
    }
}

/// Compiled regular expressions for a namespace.
pub struct NamespaceRegex {
    pub exclusive: Option<RegexSet>,
    pub non_exclusive: Option<RegexSet>,
}

impl NamespaceRegex {
    /// Whether the regexes were compiled from `ns` with the case setting.
    pub open spec fn compiled_from(self, ns: Seq<Namespace>, case_sensitive: bool) -> bool {
        &&& compiled_group(self.exclusive, namespace_patterns(ns, true), !case_sensitive)
        &&& compiled_group(self.non_exclusive, namespace_patterns(ns, false), !case_sensitive)
    }

    /// Whether both sets, when present, were built with the builder's
    /// defaults apart from case (as [`NamespaceRegex::new`] builds them).
    pub open spec fn built_with_defaults(self) -> bool {
        group_default(self.exclusive) && group_default(self.non_exclusive)
    }

    /// Whether some namespace, exclusive or not, claims `input`.
    pub open spec fn admits(self, input: Seq<char>) -> bool {
        self.admits_exclusively(input) || group_matches(self.non_exclusive, input)
    }

    /// Whether an exclusive namespace claims `input`.
    pub open spec fn admits_exclusively(self, input: Seq<char>) -> bool {
        group_matches(self.exclusive, input)
    }

    /// Compiles the exclusive and the non-exclusive patterns of `ns` into one
    /// set each (none for an empty group), matching case only when
    /// `case_sensitive`; the first pattern group that fails to compile is the
    /// error.
    pub fn new(case_sensitive: bool, ns: &[Namespace]) -> (r: Result<Self, AppserviceError>)
        ensures
            r is Ok <==> namespaces_build(ns@, case_sensitive),
            r matches Ok(regexes) ==> regexes.compiled_from(ns@, case_sensitive),
    {
        let mut exclusive: Vec<String> = Vec::new();
        let mut non_exclusive: Vec<String> = Vec::new();
        let mut i: usize = 0;
        while i < ns.len()
            invariant
                i <= ns@.len(),
                texts(exclusive@) == namespace_patterns(ns@.subrange(0, i as int), true),
                texts(non_exclusive@) == namespace_patterns(ns@.subrange(0, i as int), false),
            decreases ns@.len() - i,
        {
            proof {
                assert(ns@.subrange(0, i as int + 1).drop_last() == ns@.subrange(0, i as int));
            }
            let ghost before_ex = exclusive@;
            let ghost before_non = non_exclusive@;
            if ns[i].exclusive {
                exclusive.push(ns[i].regex.clone());
                assert(texts(exclusive@) =~= texts(before_ex).push(ns@[i as int].regex@));
            } else {
                non_exclusive.push(ns[i].regex.clone());
                assert(texts(non_exclusive@) =~= texts(before_non).push(ns@[i as int].regex@));
            }
            i = i + 1;
        }
        assert(ns@.subrange(0, ns@.len() as int) == ns@);
        let exclusive_set = if exclusive.len() > 0 {
            match build_regex_set(&exclusive, !case_sensitive) {
                Ok(set) => Some(set),
                Err(e) => {
                    return Err(AppserviceError::InvalidRegex(regex_error_text(&e)));
                },
            }
        } else {
            None
        };
        let non_exclusive_set = if non_exclusive.len() > 0 {
            match build_regex_set(&non_exclusive, !case_sensitive) {
                Ok(set) => Some(set),
                Err(e) => {
                    return Err(AppserviceError::InvalidRegex(regex_error_text(&e)));
                },
            }
        } else {
            None
        };
        Ok(NamespaceRegex { exclusive: exclusive_set, non_exclusive: non_exclusive_set })
    }

    /// Checks if this namespace has rights to a namespace. For sets built
    /// with other regex options the answer is not stated.
    pub fn is_match(&self, input: &str) -> (r: bool)
        ensures
            self.built_with_defaults() ==> r == self.admits(input@),
    {
        self.is_exclusive_match(input) || match &self.non_exclusive {
            Some(set) => regex_set_matches(set, input),
            None => false,
        }
    }

    /// Checks if this namespace has exclusive rights to a namespace. For
    /// sets built with other regex options the answer is not stated.
    pub fn is_exclusive_match(&self, input: &str) -> (r: bool)
        ensures
            group_default(self.exclusive) ==> r == self.admits_exclusively(input@),
    {
        match &self.exclusive {
            Some(set) => regex_set_matches(set, input),
            None => false,
        }
    }
}

/// The server name of a user id, as its bytes: what follows its first colon,
/// or `None` when it has no colon.
pub open spec fn server_part(id: Seq<char>) -> Option<Seq<u8>> {
    let b = vstd::utf8::encode_utf8(id);
    if exists|j: int| is_first_colon(b, j) {
        Some(after_colon(b))
    } else {
        None
    }
}

/// Whether two user ids name the same server.
pub open spec fn same_server(a: Seq<char>, b: Seq<char>) -> bool {
    server_part(a) is Some && server_part(a) == server_part(b)
}

/// An appservice registration combined with its compiled regular
/// expressions.
pub struct RegistrationInfo {
    pub aliases: NamespaceRegex,
    pub users: NamespaceRegex,
    pub rooms: NamespaceRegex,
    pub sender: String,
    pub registration: Registration,
}

impl RegistrationInfo {
    /// Whether the appservice claims `user`: its sender, or a user of the
    /// sender's server whom a user namespace matches.
    pub open spec fn claims_user(self, user: Seq<char>) -> bool {
        user == self.sender@ || (self.users.admits(user) && same_server(user, self.sender@))
    }

    /// Whether the appservice claims `user` exclusively: its sender, or a
    /// user of the sender's server whom an exclusive user namespace matches.
    pub open spec fn claims_user_exclusively(self, user: Seq<char>) -> bool {
        user == self.sender@ || (self.users.admits_exclusively(user) && same_server(user, self.sender@))
    }

    /// Whether the alias and user namespaces of `registration` compile
    /// without regard to case and its room namespaces with it.
    pub open spec fn builds(registration: Registration) -> bool {
        &&& namespaces_build(registration.namespaces.aliases@, false)
        &&& namespaces_build(registration.namespaces.users@, false)
        &&& namespaces_build(registration.namespaces.rooms@, true)
    }

    /// Compiles the namespaces of `registration` (aliases and users without
    /// regard to case, rooms with it), for the appservice whose sender is the
    /// user id `sender`; the first group that fails to compile, in that order,
    /// is the error.
    pub fn new(registration: Registration, sender: String) -> (r: Result<Self, AppserviceError>)
        ensures
            r is Ok <==> Self::builds(registration),
            r matches Ok(info) ==> {
                &&& info.aliases.compiled_from(registration.namespaces.aliases@, false)
                &&& info.users.compiled_from(registration.namespaces.users@, false)
                &&& info.rooms.compiled_from(registration.namespaces.rooms@, true)
                &&& info.sender@ == sender@
                &&& info.registration == registration
            },
    {
        let aliases = NamespaceRegex::new(false, registration.namespaces.aliases.as_slice())?;
        let users = NamespaceRegex::new(false, registration.namespaces.users.as_slice())?;
        let rooms = NamespaceRegex::new(true, registration.namespaces.rooms.as_slice())?;
        Ok(RegistrationInfo { aliases, users, rooms, sender, registration })
    }

    /// Whether the appservice claims `user_id`: its sender, or a user of this
    /// server whom a user namespace matches.
    pub fn is_user_match(&self, user_id: &str) -> (r: bool)
        ensures
            self.users.built_with_defaults() ==> r == self.claims_user(user_id@),
    {
        str_eq(user_id, self.sender.as_str()) || (self.users.is_match(user_id)
            && self.server_matches(user_id))
    }

    /// Whether the appservice claims `user_id` exclusively: its sender, or a
    /// user of this server whom an exclusive user namespace matches.
    pub fn is_exclusive_user_match(&self, user_id: &str) -> (r: bool)
        ensures
            group_default(self.users.exclusive) ==> r == self.claims_user_exclusively(user_id@),
    {
        str_eq(user_id, self.sender.as_str()) || (self.users.is_exclusive_match(user_id)
            && self.server_matches(user_id))
    }

    /// Whether `user_id` has the sender's server name.
    fn server_matches(&self, user_id: &str) -> (r: bool)
        ensures
            r == same_server(user_id@, self.sender@),
    {
        let sender = self.sender.as_str();
        match (split_colon(user_id), split_colon(sender)) {
            (Some((_, a)), Some((_, b))) => {
                let same = crate::bytes::compare_bytes(a.as_bytes(), b.as_bytes());
                same == 0
            },
            _ => false,
        }
    }
}

} // verus!
