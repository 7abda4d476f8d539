//! Resource locations: a domain and a path, written `domain:path`.
//!
//! A domain is a letter or an underscore followed by letters, digits and
//! underscores. A path is one or more such names with a slash between them.

use crate::strings::same_text;
use vstd::prelude::*;
use vstd::string::{StrSliceExecFns, StringExecFns};

verus! {

/// Why a text is no resource location.
#[derive(Clone, Debug, PartialEq, Eq)]
pub enum FromStrError {
    /// The domain, given here, is no domain.
    InvalidDomain(String),
    /// The path, given here, is no path.
    InvalidPath(String),
    /// The text, given here, has no colon.
    NotEnoughComponents(String),
}

impl FromStrError {
    /// The text that was refused.
    pub open spec fn text(self) -> Seq<char> {
        match self {
            FromStrError::InvalidDomain(text) => text@,
            FromStrError::InvalidPath(text) => text@,
            FromStrError::NotEnoughComponents(text) => text@,
        }
    }
}

/// Why an entry was not taken into a registry.
#[derive(Clone, Copy, Debug, PartialEq, Eq, Structural)]
pub enum RegistryError {
    /// The registry was left in a broken state.
    Poisoned,
    /// The registry takes no more entries.
    Locked,
    /// The registry holds an entry of that name.
    AlreadyExists,
}

/// Whether a name can start with `c`.
pub open spec fn starts_name(c: char) -> bool {
    ('a' <= c && c <= 'z') || ('A' <= c && c <= 'Z') || c == '_'
}

/// Whether a name can hold `c`.
pub open spec fn in_name(c: char) -> bool {
    starts_name(c) || ('0' <= c && c <= '9')
}

/// Whether the text is a domain.
pub open spec fn is_domain(text: Seq<char>) -> bool {
    &&& text.len() > 0
    &&& starts_name(text[0])
    &&& forall|i: int| 0 <= i < text.len() ==> in_name(#[trigger] text[i])
}

/// Whether the text is a path: names with a slash between them.
pub open spec fn is_path(text: Seq<char>) -> bool {
    &&& text.len() > 0
    &&& starts_name(text[0])
    &&& forall|i: int| 0 <= i < text.len() ==> in_name(#[trigger] text[i]) || text[i] == '/'
    &&& forall|i: int|
        0 <= i < text.len() && #[trigger] text[i] == '/' ==> i + 1 < text.len() && starts_name(
            text[i + 1],
        )
}

/// Whether an entry of `text` is a colon.
pub open spec fn has_colon(text: Seq<char>) -> bool {
    exists|i: int| 0 <= i < text.len() && #[trigger] text[i] == ':'
}

/// The place of the first colon at or after `from`, or the length of the
/// text where there is none.
pub open spec fn colon_from(text: Seq<char>, from: int) -> int
    decreases text.len() - from,
{
    if from >= text.len() {
        text.len() as int
    } else if text[from] == ':' {
        from
    } else {
        colon_from(text, from + 1)
    }
}

/// Whether a name can start with `c`.
pub fn can_start_name(c: char) -> (r: bool)
    ensures
        r == starts_name(c),
{
    ('a' <= c && c <= 'z') || ('A' <= c && c <= 'Z') || c == '_'
}

/// Whether a name can hold `c`.
pub fn can_be_in_name(c: char) -> (r: bool)
    ensures
        r == in_name(c),
{
    can_start_name(c) || ('0' <= c && c <= '9')
}

/// Whether the text is a domain.
pub fn check_domain(text: &str) -> (r: bool)
    ensures
        r == is_domain(text@),
{
    let n = text.unicode_len();
    if n == 0 {
        return false;
    }
    if !can_start_name(text.get_char(0)) {
        return false;
    }
    let mut i: usize = 0;
    while i < n
        invariant
            i <= n,
            n == text@.len(),
            forall|k: int| 0 <= k < i ==> in_name(#[trigger] text@[k]),
        decreases n - i,
    {
        if !can_be_in_name(text.get_char(i)) {
            return false;
        }
        i = i + 1;
    }
    true
}

/// Whether the text is a path.
pub fn check_path(text: &str) -> (r: bool)
    ensures
        r == is_path(text@),
{
    let n = text.unicode_len();
    if n == 0 {
        return false;
    }
    if !can_start_name(text.get_char(0)) {
        return false;
    }
    let mut i: usize = 0;
    while i < n
        invariant
            i <= n,
            n == text@.len(),
            forall|k: int| 0 <= k < i ==> in_name(#[trigger] text@[k]) || text@[k] == '/',
            forall|k: int|
                0 <= k < i && #[trigger] text@[k] == '/' ==> k + 1 < text@.len() && starts_name(
                    text@[k + 1],
                ),
        decreases n - i,
    {
        let c = text.get_char(i);
        if c == '/' {
            if i + 1 >= n {
                return false;
            }
            if !can_start_name(text.get_char(i + 1)) {
                return false;
            }
        } else if !can_be_in_name(c) {
            return false;
        }
        i = i + 1;
    }
    true
}

/// The place of the first colon at or after `from`, or the length of the
/// text where there is none.
pub fn find_colon(text: &str, from: usize) -> (place: usize)
    requires
        from <= text@.len(),
    ensures
        place == colon_from(text@, from as int),
        from <= place <= text@.len(),
        place < text@.len() ==> text@[place as int] == ':',
        forall|k: int| from <= k < place ==> text@[k] != ':',
{
    let n = text.unicode_len();
    let mut i: usize = from;
    while i < n
        invariant
            from <= i <= n,
            n == text@.len(),
            colon_from(text@, from as int) == colon_from(text@, i as int),
            forall|k: int| from <= k < i ==> text@[k] != ':',
        decreases n - i,
    {
        if text.get_char(i) == ':' {
            return i;
        }
        i = i + 1;
    }
    i
}

/// The name of a resource: a domain and a path.
#[derive(Clone, Debug, PartialEq, Eq, PartialOrd, Ord, Hash)]
pub struct ResourceLocation {
    domain: String,
    path: String,
}

impl ResourceLocation {
    /// The domain of the location.
    pub closed spec fn domain_of(&self) -> Seq<char> {
        self.domain@
    }

    /// The path of the location.
    pub closed spec fn path_of(&self) -> Seq<char> {
        self.path@
    }

    /// Whether the domain is a domain and the path a path.
    pub open spec fn valid(&self) -> bool {
        is_domain(self.domain_of()) && is_path(self.path_of())
    }

    /// The location of the given domain and path. A domain that is no
    /// domain is refused, and then a path that is no path.
    pub fn new(domain: String, path: String) -> (r: Result<Self, FromStrError>)
        ensures
            r is Ok <==> is_domain(domain@) && is_path(path@),
            r is Ok ==> r->Ok_0.domain_of() == domain@ && r->Ok_0.path_of() == path@
                && r->Ok_0.valid(),
            !is_domain(domain@) ==> r is Err && r->Err_0 is InvalidDomain
                && r->Err_0.text() == domain@,
            is_domain(domain@) && !is_path(path@) ==> r is Err
                && r->Err_0 is InvalidPath && r->Err_0.text() == path@,
    {
        if !check_domain(domain.as_str()) {
            Err(FromStrError::InvalidDomain(domain))
        } else if !check_path(path.as_str()) {
            Err(FromStrError::InvalidPath(path))
        } else {
            Ok(ResourceLocation { domain, path })
        }
    }

    /// The location that `value` spells: the domain before the first colon,
    /// and the path after it, up to the second colon if there is one.
    pub fn create(value: &str) -> (r: Result<Self, FromStrError>)
        ensures
            ({
                let first = colon_from(value@, 0);
                let second = colon_from(value@, first + 1);
                let domain = value@.subrange(0, first);
                if first >= value@.len() {
                    if is_domain(domain) {
                        r is Err && r->Err_0 is NotEnoughComponents && r->Err_0.text() == value@
                    } else {
                        r is Err && r->Err_0 is InvalidDomain && r->Err_0.text() == domain
                    }
                } else {
                    let path = value@.subrange(first + 1, second);
                    if !is_domain(domain) {
                        r is Err && r->Err_0 is InvalidDomain && r->Err_0.text() == domain
                    } else if !is_path(path) {
                        r is Err && r->Err_0 is InvalidPath && r->Err_0.text() == path
                    } else {
                        r is Ok && r->Ok_0.domain_of() == domain && r->Ok_0.path_of() == path
                            && r->Ok_0.valid()
                    }
                }
            }),
    {
        let n = value.unicode_len();
        let first = find_colon(value, 0);
        let domain = value.substring_char(0, first);
        if !check_domain(domain) {
            return Err(FromStrError::InvalidDomain(String::from_str(domain)));
        }
        if first >= n {
            assert(value@.subrange(0, first as int) =~= value@);
            return Err(FromStrError::NotEnoughComponents(String::from_str(value)));
        }
        let second = find_colon(value, first + 1);
        let path = value.substring_char(first + 1, second);
        if !check_path(path) {
            return Err(FromStrError::InvalidPath(String::from_str(path)));
        }
        Ok(ResourceLocation { domain: String::from_str(domain), path: String::from_str(path) })
    }

    /// The domain of the location.
    pub fn domain(&self) -> (domain: &str)
        ensures
            domain@ == self.domain_of(),
    {
        self.domain.as_str()
    }

    /// The path of the location.
    pub fn path(&self) -> (path: &str)
        ensures
            path@ == self.path_of(),
    {
        self.path.as_str()
    }

    /// The location as `domain:path`.
    pub fn to_text(&self) -> (text: String)
        ensures
            text@ == self.domain_of() + seq![':'] + self.path_of(),
    {
        let mut text = self.domain.clone();
        proof {
            reveal_strlit(":");
            assert(":"@ =~= seq![':']);
        }
        text.append(":");
        text.append(self.path.as_str());
        text
    }

    /// Whether two locations have the same domain and the same path.
    pub fn same(&self, other: &ResourceLocation) -> (r: bool)
        ensures
            r == (self.domain_of() == other.domain_of() && self.path_of() == other.path_of()),
    {
        same_text(self.domain.as_str(), other.domain.as_str()) && same_text(
            self.path.as_str(),
            other.path.as_str(),
        )
    }
}

/// A location is read back from its text.
pub proof fn lemma_location_round_trip(domain: Seq<char>, path: Seq<char>)
    requires
        is_domain(domain),
        is_path(path),
    ensures
        ({
            let text = domain + seq![':'] + path;
            let first = colon_from(text, 0);
            let second = colon_from(text, first + 1);
            &&& first == domain.len()
            &&& second == text.len()
            &&& text.subrange(0, first) == domain
            &&& text.subrange(first + 1, second) == path
        }),
{
    let text = domain + seq![':'] + path;
    lemma_colon_from(text, 0, domain.len() as int);
    lemma_colon_from(text, domain.len() as int + 1, text.len() as int);
    assert(text.subrange(0, domain.len() as int) =~= domain);
    assert(text.subrange(domain.len() as int + 1, text.len() as int) =~= path);
}

/// The first colon at or after `from` stands at `place` where no entry
/// from `from` up to `place` is a colon and `place` is the end or a colon.
pub proof fn lemma_colon_from(text: Seq<char>, from: int, place: int)
    requires
        0 <= from <= place <= text.len(),
        forall|k: int| from <= k < place ==> in_name(#[trigger] text[k]) || text[k] == '/',
        place == text.len() || text[place] == ':',
    ensures
        colon_from(text, from) == place,
    decreases place - from,
{
    if from < place {
        lemma_colon_from(text, from + 1, place);
    }
}

} // verus!
