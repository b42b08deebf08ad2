//! Package identifiers: an origin and a name, which together name a logical package,
//! and optionally a version and a release, which name one concrete build of it.

use vstd::prelude::*;
use vstd::string::{StrSliceExecFns, StringExecFns};
use crate::text::{chars_less, chars_of, lex_less};
use crate::version::{compare_version_chars, compare_versions, Comparison};

verus! {

/// Identifies a package. `origin` and `name` are always there; a release is only given
/// together with a version.
#[derive(Debug, PartialEq, Eq)]
pub struct PackageIdent {
    pub origin: String,
    pub name: String,
    pub version: Option<String>,
    pub release: Option<String>,
}

/// What a package identifier holds, as sequences of characters.
pub struct IdentView {
    pub origin: Seq<char>,
    pub name: Seq<char>,
    pub version: Option<Seq<char>>,
    pub release: Option<Seq<char>>,
}

/// The view of an optional string.
pub open spec fn text_of(s: Option<String>) -> Option<Seq<char>> {
    match s {
        Some(t) => Some(t@),
        None => None,
    }
}

impl View for PackageIdent {
    type V = IdentView;

    open spec fn view(&self) -> IdentView {
        IdentView {
            origin: self.origin@,
            name: self.name@,
            version: text_of(self.version),
            release: text_of(self.release),
        }
    }
}

/// A field of an identifier is well formed if it is not empty and holds no `/`.
pub open spec fn valid_part(s: Seq<char>) -> bool {
    s.len() > 0 && forall|k: int| 0 <= k < s.len() ==> #[trigger] s[k] != '/'
}

impl IdentView {
    /// Every field that is there is well formed, and a release comes with a version.
    pub open spec fn valid(self) -> bool {
        &&& valid_part(self.origin)
        &&& valid_part(self.name)
        &&& (self.version matches Some(v) ==> valid_part(v))
        &&& (self.release matches Some(r) ==> valid_part(r))
        &&& (self.release is Some ==> self.version is Some)
    }

    /// The identifier names one concrete build: version and release are both there.
    pub open spec fn fully_qualified(self) -> bool {
        self.version is Some && self.release is Some
    }

    /// Both identifiers name the same logical package.
    pub open spec fn same_package(self, other: IdentView) -> bool {
        self.origin == other.origin && self.name == other.name
    }
}

/// Whether a field of an identifier is well formed.
pub fn is_valid_part(s: &str) -> (r: bool)
    ensures
        r == valid_part(s@),
{
    let mut clean: bool = true;
    let mut any: bool = false;
    for c in it: s.chars()
        invariant
            it.seq() == s@,
            any == (it.index() > 0),
            clean == (forall|k: int| 0 <= k < it.index() ==> #[trigger] s@[k] != '/'),
    {
        if c == '/' {
            clean = false;
        }
        any = true;
    }
    clean && any
}

fn is_valid_optional_part(s: &Option<String>) -> (r: bool)
    ensures
        r == (text_of(*s) matches Some(t) ==> valid_part(t)),
{
    match s {
        Some(t) => is_valid_part(t.as_str()),
        None => true,
    }
}

fn clone_optional(s: &Option<String>) -> (r: Option<String>)
    ensures
        text_of(r) == text_of(*s),
{
    match s {
        Some(t) => Some(t.clone()),
        None => None,
    }
}

impl Clone for PackageIdent {
    fn clone(&self) -> (r: Self)
        ensures
            r@ == self@,
    {
        PackageIdent {
            origin: self.origin.clone(),
            name: self.name.clone(),
            version: clone_optional(&self.version),
            release: clone_optional(&self.release),
        }
    }
}

impl PackageIdent {
    /// Whether the identifier is well formed.
    pub fn is_valid(&self) -> (r: bool)
        ensures
            r == self@.valid(),
    {
        is_valid_part(self.origin.as_str()) && is_valid_part(self.name.as_str())
            && is_valid_optional_part(&self.version) && is_valid_optional_part(&self.release) && (
        self.release.is_none() || self.version.is_some())
    }

    /// Whether version and release are both given.
    pub fn is_fully_qualified(&self) -> (r: bool)
        ensures
            r == self@.fully_qualified(),
    {
        self.version.is_some() && self.release.is_some()
    }

    /// Whether both identifiers name the same logical package, whatever their versions.
    pub fn same_package(&self, other: &PackageIdent) -> (r: bool)
        ensures
            r == self@.same_package(other@),
    {
        self.origin == other.origin && self.name == other.name
    }
}

/// Why a string is not a package identifier.
#[derive(Clone, Copy, Debug, PartialEq, Eq, Structural)]
pub enum IdentError {
    /// There are fewer than two fields: origin and name are both needed.
    MissingField,
    /// There are more than four fields.
    TooManyFields,
    /// Some field is empty.
    EmptyField,
}

/// The fields of a string, which `/` separates. A string without `/` is one field; the
/// empty string is one empty field.
pub open spec fn split_on_slash(s: Seq<char>) -> Seq<Seq<char>>
    decreases s.len(),
{
    if s.len() == 0 {
        seq![Seq::empty()]
    } else {
        let front = split_on_slash(s.drop_last());
        if s.last() == '/' {
            front.push(Seq::empty())
        } else {
            front.update(front.len() - 1, front.last().push(s.last()))
        }
    }
}

/// Some field is empty.
pub open spec fn has_empty_field(parts: Seq<Seq<char>>) -> bool {
    exists|k: int| 0 <= k < parts.len() && (#[trigger] parts[k]).len() == 0
}

/// The identifier that the fields `origin/name`, `origin/name/version` or
/// `origin/name/version/release` make up.
pub open spec fn ident_of_fields(parts: Seq<Seq<char>>) -> IdentView {
    IdentView {
        origin: parts[0],
        name: parts[1],
        version: if parts.len() >= 3 {
            Some(parts[2])
        } else {
            None
        },
        release: if parts.len() >= 4 {
            Some(parts[3])
        } else {
            None
        },
    }
}

/// What a string reads as: an identifier, or the reason why it is none. The number of
/// fields is looked at first, then whether one is empty.
pub open spec fn parse_ident(s: Seq<char>) -> Result<IdentView, IdentError> {
    let parts = split_on_slash(s);
    if parts.len() < 2 {
        Err(IdentError::MissingField)
    } else if parts.len() > 4 {
        Err(IdentError::TooManyFields)
    } else if has_empty_field(parts) {
        Err(IdentError::EmptyField)
    } else {
        Ok(ident_of_fields(parts))
    }
}

/// The string form of an identifier: its fields with `/` between them.
pub open spec fn render_ident(v: IdentView) -> Seq<char> {
    let base = v.origin + seq!['/'] + v.name;
    match v.version {
        None => base,
        Some(version) => match v.release {
            None => base + seq!['/'] + version,
            Some(release) => base + seq!['/'] + version + seq!['/'] + release,
        },
    }
}

/// The order of optional fields by characters: a field that is not there comes first.
pub open spec fn compare_optional_text(a: Option<Seq<char>>, b: Option<Seq<char>>) -> Comparison {
    match (a, b) {
        (None, None) => Comparison::Equal,
        (None, Some(_)) => Comparison::Less,
        (Some(_), None) => Comparison::Greater,
        (Some(x), Some(y)) => compare_text(x, y),
    }
}

/// The order of strings by characters.
pub open spec fn compare_text(a: Seq<char>, b: Seq<char>) -> Comparison {
    if a == b {
        Comparison::Equal
    } else if lex_less(a, b) {
        Comparison::Less
    } else {
        Comparison::Greater
    }
}

/// The order of optional versions: a version that is not there comes first.
pub open spec fn compare_optional_versions(a: Option<Seq<char>>, b: Option<Seq<char>>) -> Comparison {
    match (a, b) {
        (None, None) => Comparison::Equal,
        (None, Some(_)) => Comparison::Less,
        (Some(_), None) => Comparison::Greater,
        (Some(x), Some(y)) => compare_versions(x, y),
    }
}

/// The order of identifiers: by origin, then by name, both by characters; then by
/// version, where runs of digits count as numbers; then by release, by characters.
pub open spec fn compare_idents(a: IdentView, b: IdentView) -> Comparison {
    if compare_text(a.origin, b.origin) != Comparison::Equal {
        compare_text(a.origin, b.origin)
    } else if compare_text(a.name, b.name) != Comparison::Equal {
        compare_text(a.name, b.name)
    } else if compare_optional_versions(a.version, b.version) != Comparison::Equal {
        compare_optional_versions(a.version, b.version)
    } else {
        compare_optional_text(a.release, b.release)
    }
}

/// The fields of the start of a string are no more than those of the whole.
pub proof fn lemma_split_len_grows(s: Seq<char>, i: int)
    requires
        0 <= i <= s.len(),
    ensures
        1 <= split_on_slash(s.take(i)).len() <= split_on_slash(s).len(),
    decreases s.len() - i,
{
    if i == s.len() {
        assert(s.take(i) =~= s);
        lemma_split_not_empty(s);
    } else {
        lemma_split_len_grows(s, i + 1);
        assert(s.take(i + 1).drop_last() =~= s.take(i));
        lemma_split_not_empty(s.take(i));
    }
}

pub proof fn lemma_split_not_empty(s: Seq<char>)
    ensures
        split_on_slash(s).len() >= 1,
    decreases s.len(),
{
    if s.len() > 0 {
        lemma_split_not_empty(s.drop_last());
    }
}

/// No field holds a `/`.
pub proof fn lemma_split_fields_hold_no_slash(s: Seq<char>)
    ensures
        forall|k: int, m: int|
            0 <= k < split_on_slash(s).len() && 0 <= m < split_on_slash(s)[k].len()
                ==> #[trigger] split_on_slash(s)[k][m] != '/',
    decreases s.len(),
{
    if s.len() > 0 {
        lemma_split_fields_hold_no_slash(s.drop_last());
        lemma_split_not_empty(s.drop_last());
    }
}

/// What parses is well formed.
pub proof fn lemma_parsed_is_valid(s: Seq<char>)
    requires
        parse_ident(s) is Ok,
    ensures
        parse_ident(s)->Ok_0.valid(),
{
    let parts = split_on_slash(s);
    lemma_split_fields_hold_no_slash(s);
    assert forall|k: int| 0 <= k < parts.len() implies valid_part(#[trigger] parts[k]) by {
        assert(parts[k].len() != 0);
        assert forall|m: int| 0 <= m < parts[k].len() implies #[trigger] parts[k][m] != '/' by {
            assert(split_on_slash(s)[k][m] != '/');
        }
    }
    assert(valid_part(parts[0]) && valid_part(parts[1]));
    if parts.len() >= 3 {
        assert(valid_part(parts[2]));
    }
    if parts.len() >= 4 {
        assert(valid_part(parts[3]));
    }
}

/// A field after a `/` at the end of a string is one more field.
pub proof fn lemma_split_with_one_more(s: Seq<char>, field: Seq<char>)
    requires
        forall|m: int| 0 <= m < field.len() ==> #[trigger] field[m] != '/',
    ensures
        split_on_slash(s + seq!['/'] + field) == split_on_slash(s).push(field),
    decreases field.len(),
{
    let whole = s + seq!['/'] + field;
    if field.len() == 0 {
        assert(whole.drop_last() =~= s);
        assert(field =~= Seq::empty());
    } else {
        let front = field.drop_last();
        lemma_split_with_one_more(s, front);
        assert(whole.drop_last() =~= s + seq!['/'] + front);
        assert(whole.last() == field.last());
        assert(front.push(field.last()) =~= field);
        let before = split_on_slash(s).push(front);
        assert(before.update(before.len() - 1, before.last().push(field.last()))
            =~= split_on_slash(s).push(field));
    }
}

/// A string without `/` is one field.
pub proof fn lemma_split_of_one_field(field: Seq<char>)
    requires
        forall|m: int| 0 <= m < field.len() ==> #[trigger] field[m] != '/',
    ensures
        split_on_slash(field) == seq![field],
    decreases field.len(),
{
    if field.len() == 0 {
        assert(field =~= Seq::empty());
    } else {
        let front = field.drop_last();
        lemma_split_of_one_field(front);
        assert(front.push(field.last()) =~= field);
        assert(seq![front].update(0, front.push(field.last())) =~= seq![field]);
    }
}

/// The string form of a well-formed identifier reads back as the identifier.
pub proof fn law_render_then_parse(v: IdentView)
    requires
        v.valid(),
    ensures
        parse_ident(render_ident(v)) == Ok::<IdentView, IdentError>(v),
{
    lemma_split_of_one_field(v.origin);
    lemma_split_with_one_more(v.origin, v.name);
    let base = v.origin + seq!['/'] + v.name;
    assert(split_on_slash(base) =~= seq![v.origin, v.name]);
    match v.version {
        None => {
            let parts = split_on_slash(base);
            assert(!has_empty_field(parts)) by {
                assert(parts[0].len() > 0 && parts[1].len() > 0);
            }
        },
        Some(version) => {
            lemma_split_with_one_more(base, version);
            let with_version = base + seq!['/'] + version;
            assert(split_on_slash(with_version) =~= seq![v.origin, v.name, version]);
            match v.release {
                None => {
                    let parts = split_on_slash(with_version);
                    assert(!has_empty_field(parts)) by {
                        assert(parts[0].len() > 0 && parts[1].len() > 0 && parts[2].len() > 0);
                    }
                },
                Some(release) => {
                    lemma_split_with_one_more(with_version, release);
                    let parts = split_on_slash(with_version + seq!['/'] + release);
                    assert(parts =~= seq![v.origin, v.name, version, release]);
                    assert(!has_empty_field(parts)) by {
                        assert(parts[0].len() > 0 && parts[1].len() > 0 && parts[2].len() > 0
                            && parts[3].len() > 0);
                    }
                },
            }
        },
    }
}

/// The views of a sequence of strings.
pub open spec fn texts_of(s: Seq<String>) -> Seq<Seq<char>> {
    s.map_values(|t: String| t@)
}

/// The fields of a string, as far as there are no more than four of them.
fn split_fields(s: &str) -> (r: Option<Vec<String>>)
    ensures
        r is None <==> split_on_slash(s@).len() > 4,
        r matches Some(parts) ==> texts_of(parts@) == split_on_slash(s@),
{
    let n: usize = s.unicode_len();
    let mut parts: Vec<String> = Vec::new();
    let mut start: usize = 0;
    let mut i: usize = 0;
    assert(s@.take(0) =~= Seq::empty());
    assert(s@.subrange(0, 0) =~= Seq::empty());
    assert(texts_of(parts@).push(s@.subrange(0, 0)) =~= seq![Seq::empty()]);
    while i < n
        invariant
            n == s@.len(),
            start <= i <= n,
            parts.len() <= 3,
            split_on_slash(s@.take(i as int)) == texts_of(parts@).push(
                s@.subrange(start as int, i as int),
            ),
        decreases n - i,
    {
        let c: char = s.get_char(i);
        let ghost sofar = texts_of(parts@);
        let ghost current = s@.subrange(start as int, i as int);
        proof {
            assert(s@.take(i + 1).drop_last() =~= s@.take(i as int));
            assert(s@.take(i + 1).last() == c);
        }
        if c == '/' {
            if parts.len() == 3 {
                proof {
                    lemma_split_len_grows(s@, i + 1);
                }
                return None;
            }
            parts.push(s.substring_char(start, i).to_owned());
            start = i + 1;
            proof {
                assert(texts_of(parts@) =~= sofar.push(current));
                assert(s@.subrange(start as int, i + 1) =~= Seq::empty());
            }
        } else {
            proof {
                let before = sofar.push(current);
                assert(before.update(before.len() - 1, before.last().push(c)) =~= sofar.push(
                    s@.subrange(start as int, i + 1),
                )) by {
                    assert(current.push(c) =~= s@.subrange(start as int, i + 1));
                }
            }
        }
        i += 1;
    }
    let ghost sofar = texts_of(parts@);
    parts.push(s.substring_char(start, n).to_owned());
    proof {
        assert(s@.take(n as int) =~= s@);
        assert(texts_of(parts@) =~= sofar.push(s@.subrange(start as int, n as int)));
    }
    Some(parts)
}

fn compare_char_text(a: &Vec<char>, b: &Vec<char>) -> (r: Comparison)
    ensures
        r == compare_text(a@, b@),
{
    if chars_less(a, b) {
        proof {
            crate::text::lemma_lex_irreflexive(a@);
        }
        Comparison::Less
    } else if chars_less(b, a) {
        proof {
            crate::text::lemma_lex_irreflexive(a@);
        }
        Comparison::Greater
    } else {
        proof {
            crate::text::lemma_lex_total(a@, b@);
        }
        Comparison::Equal
    }
}

fn compare_strings(a: &String, b: &String) -> (r: Comparison)
    ensures
        r == compare_text(a@, b@),
{
    let x = chars_of(a.as_str());
    let y = chars_of(b.as_str());
    compare_char_text(&x, &y)
}

impl PackageIdent {
    /// Reads an identifier from `origin/name`, `origin/name/version` or
    /// `origin/name/version/release`. Any other string is refused, with the reason.
    pub fn parse(s: &str) -> (r: Result<PackageIdent, IdentError>)
        ensures
            match r {
                Ok(id) => parse_ident(s@) == Ok::<IdentView, IdentError>(id@) && id@.valid(),
                Err(e) => parse_ident(s@) == Err::<IdentView, IdentError>(e),
            },
    {
        let parts = match split_fields(s) {
            None => {
                proof {
                    lemma_split_not_empty(s@);
                }
                return Err(IdentError::TooManyFields);
            },
            Some(parts) => parts,
        };
        let ghost fields = split_on_slash(s@);
        assert(texts_of(parts@).len() == parts.len());
        if parts.len() < 2 {
            return Err(IdentError::MissingField);
        }
        let mut k: usize = 0;
        while k < parts.len()
            invariant
                k <= parts.len(),
                2 <= parts.len() <= 4,
                fields == split_on_slash(s@),
                texts_of(parts@) == fields,
                forall|m: int| 0 <= m < k ==> (#[trigger] fields[m]).len() != 0,
            decreases parts.len() - k,
        {
            assert(texts_of(parts@)[k as int] == parts@[k as int]@);
            if parts[k].as_str().is_empty() {
                assert(fields[k as int].len() == 0);
                return Err(IdentError::EmptyField);
            }
            k += 1;
        }
        assert(!has_empty_field(fields));
        assert(texts_of(parts@)[0] == parts@[0]@);
        assert(texts_of(parts@)[1] == parts@[1]@);
        let version = if parts.len() >= 3 {
            assert(texts_of(parts@)[2] == parts@[2]@);
            Some(parts[2].clone())
        } else {
            None
        };
        let release = if parts.len() >= 4 {
            assert(texts_of(parts@)[3] == parts@[3]@);
            Some(parts[3].clone())
        } else {
            None
        };
        let id = PackageIdent {
            origin: parts[0].clone(),
            name: parts[1].clone(),
            version,
            release,
        };
        proof {
            assert(id@ == ident_of_fields(fields));
            lemma_parsed_is_valid(s@);
        }
        Ok(id)
    }

    /// The string form of the identifier, which `parse` reads back where the identifier is
    /// well formed.
    pub fn render(&self) -> (r: String)
        ensures
            r@ == render_ident(self@),
    {
        proof {
            reveal_strlit("/");
            assert("/"@ =~= seq!['/']);
        }
        let mut r: String = self.origin.clone();
        r.append("/");
        r.append(self.name.as_str());
        match &self.version {
            None => {},
            Some(version) => {
                r.append("/");
                r.append(version.as_str());
                match &self.release {
                    None => {},
                    Some(release) => {
                        r.append("/");
                        r.append(release.as_str());
                    },
                }
            },
        }
        r
    }

    /// Whether both identifiers name the same concrete package: all four fields agree.
    pub fn same_concrete(&self, other: &PackageIdent) -> (r: bool)
        ensures
            r == (self@ == other@),
    {
        let versions = match (&self.version, &other.version) {
            (None, None) => true,
            (Some(a), Some(b)) => *a == *b,
            _ => false,
        };
        let releases = match (&self.release, &other.release) {
            (None, None) => true,
            (Some(a), Some(b)) => *a == *b,
            _ => false,
        };
        self.origin == other.origin && self.name == other.name && versions && releases
    }

    /// How the identifier stands to `other` in the order of identifiers.
    pub fn compare(&self, other: &PackageIdent) -> (r: Comparison)
        ensures
            r == compare_idents(self@, other@),
    {
        let by_origin = compare_strings(&self.origin, &other.origin);
        if by_origin != Comparison::Equal {
            return by_origin;
        }
        let by_name = compare_strings(&self.name, &other.name);
        if by_name != Comparison::Equal {
            return by_name;
        }
        let by_version = match (&self.version, &other.version) {
            (None, None) => Comparison::Equal,
            (None, Some(_)) => Comparison::Less,
            (Some(_), None) => Comparison::Greater,
            (Some(a), Some(b)) => {
                let x = chars_of(a.as_str());
                let y = chars_of(b.as_str());
                compare_version_chars(&x, &y)
            },
        };
        if by_version != Comparison::Equal {
            return by_version;
        }
        match (&self.release, &other.release) {
            (None, None) => Comparison::Equal,
            (None, Some(_)) => Comparison::Less,
            (Some(_), None) => Comparison::Greater,
            (Some(a), Some(b)) => compare_strings(a, b),
        }
    }
}

} // verus!
