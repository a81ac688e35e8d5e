//! Normalized names of packages, extras and dependency groups.

use std::str::FromStr;
use vstd::prelude::*;

verus! {

/// Whether the character is a letter of the basic alphabet or a digit.
pub open spec fn is_letter_or_digit(c: char) -> bool {
    let n = c as int;
    (0x30 <= n <= 0x39) || (0x41 <= n <= 0x5a) || (0x61 <= n <= 0x7a)
}

/// Whether the character separates the parts of a name: `-`, `_` or `.`.
pub open spec fn is_separator(c: char) -> bool {
    c == '-' || c == '_' || c == '.'
}

/// The character in lower case.
pub open spec fn lowered(c: char) -> char {
    let n = c as int;
    if 0x41 <= n <= 0x5a {
        ((n + 32) as u8) as char
    } else {
        c
    }
}

/// Whether the text can be a name: it is not empty, holds letters, digits
/// and separators only, and starts and ends with a letter or a digit.
pub open spec fn name_valid(raw: Seq<char>) -> bool {
    &&& raw.len() > 0
    &&& forall|i: int| 0 <= i < raw.len() ==> is_letter_or_digit(#[trigger] raw[i]) || is_separator(raw[i])
    &&& is_letter_or_digit(raw.first())
    &&& is_letter_or_digit(raw.last())
}

/// The text with its letters in lower case and each run of separators as
/// one `-`.
pub open spec fn normal(raw: Seq<char>) -> Seq<char>
    decreases raw.len(),
{
    if raw.len() == 0 {
        Seq::empty()
    } else if !is_separator(raw.last()) {
        normal(raw.drop_last()).push(lowered(raw.last()))
    } else if raw.len() >= 2 && is_separator(raw[raw.len() - 2]) {
        normal(raw.drop_last())
    } else {
        normal(raw.drop_last()).push('-')
    }
}

/// The normal form of a name of a package, an extra or a dependency group;
/// `None` where the text cannot be a name.
pub open spec fn normal_form(raw: Seq<char>) -> Option<Seq<char>> {
    if name_valid(raw) {
        Some(normal(raw))
    } else {
        None
    }
}

#[verifier::external_type_specification]
#[verifier::external_body]
pub struct ExInvalidNameError(uv_normalize::InvalidNameError);

/// Calls `uv_normalize::PackageName::from_str` and hands out the text of
/// the name it made. The contract claims that it accepts the texts that can
/// be names and no others, and that the name is the text in lower case with
/// each run of separators as one `-`.
#[verifier::external_body]
fn normalize_package_name(raw: &str) -> (r: Result<String, uv_normalize::InvalidNameError>)
    ensures
        match r {
            Ok(n) => normal_form(raw@) == Some(n@),
            Err(_) => normal_form(raw@) is None,
        },
{
    uv_normalize::PackageName::from_str(raw).map(|n| n.as_str().to_string())
}

/// Calls `uv_normalize::ExtraName::from_str` and hands out the text of the
/// name it made. The contract claims that it accepts the texts that can be
/// names and no others, and that the name is the text in lower case with
/// each run of separators as one `-`.
#[verifier::external_body]
fn normalize_extra_name(raw: &str) -> (r: Result<String, uv_normalize::InvalidNameError>)
    ensures
        match r {
            Ok(n) => normal_form(raw@) == Some(n@),
            Err(_) => normal_form(raw@) is None,
        },
{
    uv_normalize::ExtraName::from_str(raw).map(|n| n.as_str().to_string())
}

/// Calls `uv_normalize::GroupName::from_str` and hands out the text of the
/// name it made. The contract claims that it accepts the texts that can be
/// names and no others, and that the name is the text in lower case with
/// each run of separators as one `-`.
#[verifier::external_body]
fn normalize_group_name(raw: &str) -> (r: Result<String, uv_normalize::InvalidNameError>)
    ensures
        match r {
            Ok(n) => normal_form(raw@) == Some(n@),
            Err(_) => normal_form(raw@) is None,
        },
{
    uv_normalize::GroupName::from_str(raw).map(|n| n.as_str().to_string())
}

/// Why a text is not a name.
#[derive(Debug, Clone, Copy, PartialEq, Eq, Structural)]
pub enum NameError {
    /// Names start and end with a letter or digit and hold only letters,
    /// digits, `-`, `_` and `.`.
    Invalid,
}

/// The normalized name of a package: the sole identity of the package.
#[derive(Debug)]
pub struct PackageName {
    name: String,
}

impl View for PackageName {
    type V = Seq<char>;

    closed spec fn view(&self) -> Seq<char> {
        self.name@
    }
}

impl PackageName {
    /// Every package name is the normal form of some text.
    #[verifier::type_invariant]
    pub closed spec fn wf(&self) -> bool {
        exists|raw: Seq<char>| normal_form(raw) == Some(self.name@)
    }

    /// Validates and normalizes a package name.
    pub fn new(raw: &str) -> (r: Result<PackageName, NameError>)
        ensures
            match r {
                Ok(n) => normal_form(raw@) == Some(n@) && n.wf(),
                Err(_) => normal_form(raw@) is None,
            },
    {
        match normalize_package_name(raw) {
            Ok(name) => Ok(PackageName { name }),
            Err(_) => Err(NameError::Invalid),
        }
    }

    /// The normalized text.
    pub fn as_str(&self) -> (r: &str)
        ensures
            r@ == self@,
    {
        self.name.as_str()
    }

    /// A copy of the name.
    pub fn duplicate(&self) -> (r: PackageName)
        ensures
            r@ == self@,
            r.wf(),
    {
        proof {
            use_type_invariant(self);
        }
        PackageName { name: self.name.clone() }
    }

    /// Whether both are the same package.
    pub fn same(&self, other: &PackageName) -> (r: bool)
        ensures
            r == (self@ == other@),
    {
        self.name == other.name
    }
}

/// The normalized name of an extra: an optional feature of a package.
#[derive(Debug)]
pub struct ExtraName {
    name: String,
}

impl View for ExtraName {
    type V = Seq<char>;

    closed spec fn view(&self) -> Seq<char> {
        self.name@
    }
}

impl ExtraName {
    /// Every extra name is the normal form of some text.
    #[verifier::type_invariant]
    pub closed spec fn wf(&self) -> bool {
        exists|raw: Seq<char>| normal_form(raw) == Some(self.name@)
    }

    /// Validates and normalizes the name of an extra.
    pub fn new(raw: &str) -> (r: Result<ExtraName, NameError>)
        ensures
            match r {
                Ok(n) => normal_form(raw@) == Some(n@) && n.wf(),
                Err(_) => normal_form(raw@) is None,
            },
    {
        match normalize_extra_name(raw) {
            Ok(name) => Ok(ExtraName { name }),
            Err(_) => Err(NameError::Invalid),
        }
    }

    /// The normalized text.
    pub fn as_str(&self) -> (r: &str)
        ensures
            r@ == self@,
    {
        self.name.as_str()
    }

    /// A copy of the name.
    pub fn duplicate(&self) -> (r: ExtraName)
        ensures
            r@ == self@,
            r.wf(),
    {
        proof {
            use_type_invariant(self);
        }
        ExtraName { name: self.name.clone() }
    }

    /// Whether both are the same extra.
    pub fn same(&self, other: &ExtraName) -> (r: bool)
        ensures
            r == (self@ == other@),
    {
        self.name == other.name
    }
}

/// The normalized name of a dependency group.
#[derive(Debug)]
pub struct GroupName {
    name: String,
}

impl View for GroupName {
    type V = Seq<char>;

    closed spec fn view(&self) -> Seq<char> {
        self.name@
    }
}

impl GroupName {
    /// Every group name is the normal form of some text.
    #[verifier::type_invariant]
    pub closed spec fn wf(&self) -> bool {
        exists|raw: Seq<char>| normal_form(raw) == Some(self.name@)
    }

    /// Validates and normalizes the name of a dependency group.
    pub fn new(raw: &str) -> (r: Result<GroupName, NameError>)
        ensures
            match r {
                Ok(n) => normal_form(raw@) == Some(n@) && n.wf(),
                Err(_) => normal_form(raw@) is None,
            },
    {
        match normalize_group_name(raw) {
            Ok(name) => Ok(GroupName { name }),
            Err(_) => Err(NameError::Invalid),
        }
    }

    /// The normalized text.
    pub fn as_str(&self) -> (r: &str)
        ensures
            r@ == self@,
    {
        self.name.as_str()
    }

    /// A copy of the name.
    pub fn duplicate(&self) -> (r: GroupName)
        ensures
            r@ == self@,
            r.wf(),
    {
        proof {
            use_type_invariant(self);
        }
        GroupName { name: self.name.clone() }
    }

    /// Whether both are the same group.
    pub fn same(&self, other: &GroupName) -> (r: bool)
        ensures
            r == (self@ == other@),
    {
        self.name == other.name
    }
}


/// Whether `a` comes before `b` in the order of the dictionary: at the
/// first place where they differ `a` has the lower character, or `a` ends
/// there and `b` goes on.
pub open spec fn text_before(a: Seq<char>, b: Seq<char>) -> bool
    decreases a.len(),
{
    if b.len() == 0 {
        false
    } else if a.len() == 0 {
        true
    } else if a[0] != b[0] {
        (a[0] as int) < (b[0] as int)
    } else {
        text_before(a.drop_first(), b.drop_first())
    }
}

/// Of two texts one comes before the other, or they are the same text.
pub proof fn lemma_text_order(a: Seq<char>, b: Seq<char>)
    ensures
        text_before(a, b) || a == b || text_before(b, a),
        !(text_before(a, b) && text_before(b, a)),
        !(text_before(a, b) && a == b),
    decreases a.len(),
{
    if a.len() > 0 && b.len() > 0 {
        if a[0] == b[0] {
            lemma_text_order(a.drop_first(), b.drop_first());
            if a.drop_first() == b.drop_first() {
                assert(a =~= b) by {
                    assert forall|i: int| 0 <= i < a.len() implies a[i] == b[i] by {
                        if i > 0 {
                            assert(a.drop_first()[i - 1] == b.drop_first()[i - 1]);
                        }
                    }
                }
            }
            if a == b {
                assert(a.drop_first() == b.drop_first());
            }
        }
    } else if a.len() == 0 && b.len() == 0 {
        assert(a =~= b);
    }
}

/// The order of the dictionary is transitive.
pub proof fn lemma_text_before_trans(a: Seq<char>, b: Seq<char>, c: Seq<char>)
    requires
        text_before(a, b),
        text_before(b, c),
    ensures
        text_before(a, c),
    decreases a.len(),
{
    if a.len() > 0 {
        if a[0] == b[0] && b[0] == c[0] {
            lemma_text_before_trans(a.drop_first(), b.drop_first(), c.drop_first());
        }
    }
}

/// Whether `a` comes before `b` in the order of the dictionary.
pub fn precedes(a: &str, b: &str) -> (r: bool)
    ensures
        r == text_before(a@, b@),
{
    let n = a.unicode_len();
    let m = b.unicode_len();
    let mut i: usize = 0;
    assert(a@.skip(0) =~= a@ && b@.skip(0) =~= b@);
    while i < n && i < m
        invariant
            i <= n,
            i <= m,
            n == a@.len(),
            m == b@.len(),
            text_before(a@, b@) == text_before(a@.skip(i as int), b@.skip(i as int)),
        decreases n - i,
    {
        let x = a.get_char(i);
        let y = b.get_char(i);
        proof {
            assert(a@.skip(i as int)[0] == x && b@.skip(i as int)[0] == y);
            assert(a@.skip(i as int).drop_first() =~= a@.skip(i + 1));
            assert(b@.skip(i as int).drop_first() =~= b@.skip(i + 1));
        }
        if x != y {
            return x < y;
        }
        i += 1;
    }
    i < m
}

} // verus!
