//! File paths as bytes, and what their components say: which path contains
//! which, and where one path lies below another.
//!
//! A path is written in the syntax of Unix or in that of Windows. Repeated
//! separators count as one, and `.` counts only at the start of a relative path.
//! In the syntax of Windows `\` separates components as `/` does, and a path can
//! begin with a prefix, such as a drive.
use crate::fields::{
    free_of, lemma_first_field, lemma_last_field, lemma_split_concat, lemma_split_fields, split_on,
};
use crate::prefix::{
    bytes_equal, copy_range, find_prefix, has_two_slashes, is_slash, lemma_drive_or_none,
    lemma_no_prefix_when_cut, lemma_prefix_end, lemma_prefix_size, lemma_prefix_stays,
    lemma_prefix_when_cut, windows_prefix, PathPrefix, PrefixView, BACKSLASH, DOT, SLASH,
};
use crate::protocol::{bytes_to_text, text_of};
use vstd::prelude::*;
use vstd::string::*;
use vstd::utf8::*;

verus! {

/// The syntax that a path is written in.
#[derive(Clone, Copy, Debug, PartialEq, Eq, Structural)]
pub enum Syntax {
    Unix,
    Windows,
}

// ---------------------------------------------------------------------------
// What a path is
// ---------------------------------------------------------------------------

/// A path as it is written.
#[verifier::ext_equal]
pub struct PathView {
    pub syntax: Syntax,
    pub bytes: Seq<u8>,
}

/// One component of a path.
#[verifier::ext_equal]
pub enum PartView {
    /// What a Windows path can begin with.
    Prefix(PrefixView),
    /// The root directory.
    Root,
    /// A name, or one of `.` and `..`.
    Segment(Seq<u8>),
}

/// A byte that separates components.
pub open spec fn is_separator(syntax: Syntax, b: u8) -> bool {
    b == SLASH || (syntax is Windows && b == BACKSLASH)
}

/// The byte that is put between components.
pub open spec fn main_separator(syntax: Syntax) -> u8 {
    match syntax {
        Syntax::Unix => SLASH,
        Syntax::Windows => BACKSLASH,
    }
}

/// What separates the components of a path; in a verbatim one `/` does not.
pub open spec fn separators(syntax: Syntax, verbatim: bool) -> spec_fn(u8) -> bool {
    |b: u8| is_separator(syntax, b) && (verbatim ==> b == BACKSLASH)
}

/// A segment names something, unless it is empty or `.`. In a verbatim path `.`
/// is a name.
pub open spec fn is_name(segment: Seq<u8>, verbatim: bool) -> bool {
    segment.len() > 0 && (verbatim || segment != seq![DOT])
}

/// The names between the separators of a text.
#[verifier::opaque]
pub open spec fn names(text: Seq<u8>, syntax: Syntax, verbatim: bool) -> Seq<Seq<u8>> {
    split_on(text, separators(syntax, verbatim)).filter(|s: Seq<u8>| is_name(s, verbatim))
}

/// A text that is `.`, or begins with it and a separator.
pub open spec fn begins_with_dot(text: Seq<u8>, syntax: Syntax) -> bool {
    text.len() > 0 && text[0] == DOT && (text.len() == 1 || is_separator(syntax, text[1]))
}

impl PathView {
    /// The prefix of the path.
    pub open spec fn prefix(self) -> Option<PrefixView> {
        match self.syntax {
            Syntax::Unix => None,
            Syntax::Windows => windows_prefix(self.bytes),
        }
    }

    /// The number of bytes that the prefix is written with.
    pub open spec fn prefix_size(self) -> nat {
        match self.prefix() {
            Some(p) => p.size(),
            None => 0,
        }
    }

    /// `\` alone separates the components of the path.
    pub open spec fn is_verbatim(self) -> bool {
        self.prefix() matches Some(p) && p.is_verbatim()
    }

    /// What stands behind the prefix.
    pub open spec fn body(self) -> Seq<u8> {
        self.bytes.skip(self.prefix_size() as int)
    }

    /// A separator stands behind the prefix.
    pub open spec fn has_leading_separator(self) -> bool {
        self.body().len() > 0 && is_separator(self.syntax, self.body()[0])
    }

    /// What stands behind the prefix and the root directory.
    pub open spec fn inner(self) -> Seq<u8> {
        if self.has_leading_separator() {
            self.body().skip(1)
        } else {
            self.body()
        }
    }

    /// The path starts at a root directory. Every prefix but a drive implies one.
    pub open spec fn has_root(self) -> bool {
        self.has_leading_separator() || (self.prefix() matches Some(p) && !(p is Disk))
    }

    /// The prefix as a component.
    pub open spec fn prefix_parts(self) -> Seq<PartView> {
        match self.prefix() {
            Some(p) => seq![PartView::Prefix(p)],
            None => Seq::empty(),
        }
    }

    /// The component before the names: the root directory, or `.` where a path
    /// without a prefix begins with it. A verbatim prefix has a root directory
    /// behind it only where one is written.
    pub open spec fn start_parts(self) -> Seq<PartView> {
        if self.has_leading_separator() {
            seq![PartView::Root]
        } else {
            match self.prefix() {
                Some(p) => if p is Disk || p.is_verbatim() {
                    Seq::empty()
                } else {
                    seq![PartView::Root]
                },
                None => if begins_with_dot(self.body(), self.syntax) {
                    seq![PartView::Segment(seq![DOT])]
                } else {
                    Seq::empty()
                },
            }
        }
    }

    /// The names in the path.
    pub open spec fn name_parts(self) -> Seq<PartView> {
        segment_parts(names(self.inner(), self.syntax, self.is_verbatim()))
    }
}

/// Segments as components.
pub open spec fn segment_parts(segments: Seq<Seq<u8>>) -> Seq<PartView> {
    segments.map_values(|s: Seq<u8>| PartView::Segment(s))
}

/// The components of a path.
pub open spec fn components(path: PathView) -> Seq<PartView> {
    path.prefix_parts() + path.start_parts() + path.name_parts()
}

/// Two paths are the same if they have the same components.
pub open spec fn same_path(a: PathView, b: PathView) -> bool {
    a.syntax == b.syntax && components(a) == components(b)
}

/// A path that does not depend on a current directory. In the syntax of Windows
/// it has a prefix and a root directory.
pub open spec fn is_absolute(path: PathView) -> bool {
    path.has_root() && (path.syntax is Windows ==> path.prefix() is Some)
}

/// `path` is `base` or lies below it.
pub open spec fn starts_with(path: PathView, base: PathView) -> bool {
    path.syntax == base.syntax && components(base).is_prefix_of(components(path))
}

// ---------------------------------------------------------------------------
// Joining
// ---------------------------------------------------------------------------

/// A separator has to be put behind the path before something is joined onto it.
pub open spec fn needs_separator(path: PathView) -> bool {
    &&& path.bytes.len() > 0
    &&& !is_separator(path.syntax, path.bytes.last())
    &&& !(path.prefix() matches Some(p) && p is Disk && p.size() == path.bytes.len())
}

/// The component is the name of a file.
pub open spec fn is_file_name(part: PartView) -> bool {
    part matches PartView::Segment(s) && s != seq![DOT] && s != seq![DOT, DOT]
}

/// The components behind a prefix after one more of them. `..` takes a file name
/// away, and a root directory all that there are.
pub open spec fn push_part(parts: Seq<PartView>, part: PartView) -> Seq<PartView> {
    match part {
        PartView::Root => seq![PartView::Root],
        PartView::Segment(s) => if s == seq![DOT] {
            parts
        } else if s == seq![DOT, DOT] {
            if parts.len() > 0 && is_file_name(parts.last()) {
                parts.drop_last()
            } else {
                parts
            }
        } else {
            parts.push(part)
        },
        PartView::Prefix(_) => parts,
    }
}

/// The components behind a prefix after more of them, one after the other.
pub open spec fn push_parts(parts: Seq<PartView>, more: Seq<PartView>) -> Seq<PartView>
    decreases more.len(),
{
    if more.len() == 0 {
        parts
    } else {
        push_part(push_parts(parts, more.drop_last()), more.last())
    }
}

/// A verbatim path, written with a prefix and the components behind it.
pub open spec fn written(prefix: Seq<u8>, parts: Seq<PartView>) -> Seq<u8>
    decreases parts.len(),
{
    if parts.len() == 0 {
        prefix
    } else {
        let before = written(prefix, parts.drop_last());
        match parts.last() {
            PartView::Segment(s) => if parts.len() > 1 && parts[parts.len() - 2] is Root {
                before + s
            } else {
                before.push(BACKSLASH) + s
            },
            _ => before.push(BACKSLASH),
        }
    }
}

/// The bytes of a path that is joined onto another one.
pub open spec fn joined_bytes(base: PathView, part: PathView) -> Seq<u8> {
    if is_absolute(part) || part.prefix() is Some {
        part.bytes
    } else if base.is_verbatim() && part.bytes.len() > 0 {
        written(
            base.bytes.take(base.prefix_size() as int),
            push_parts(components(base).skip(1), components(part)),
        )
    } else if part.has_root() {
        base.bytes.take(base.prefix_size() as int) + part.bytes
    } else if needs_separator(base) {
        base.bytes.push(main_separator(base.syntax)) + part.bytes
    } else {
        base.bytes + part.bytes
    }
}

/// `part` seen from the directory `base`, in whose syntax it is read. A part
/// that is absolute or has a prefix stands alone. One with a root directory
/// replaces all but the prefix. Onto a verbatim path it is joined component by
/// component.
pub open spec fn join(base: PathView, part: PathView) -> PathView {
    PathView {
        syntax: base.syntax,
        bytes: joined_bytes(base, PathView { syntax: base.syntax, ..part }),
    }
}

// ---------------------------------------------------------------------------
// Stripping
// ---------------------------------------------------------------------------

/// The first field of a text.
pub open spec fn first_field(text: Seq<u8>, syntax: Syntax, verbatim: bool) -> Seq<u8> {
    split_on(text, separators(syntax, verbatim))[0]
}

/// The last field of a text.
pub open spec fn last_field(text: Seq<u8>, syntax: Syntax, verbatim: bool) -> Seq<u8> {
    split_on(text, separators(syntax, verbatim)).last()
}

/// A text without its first field and the separator behind it.
pub open spec fn without_first(text: Seq<u8>, syntax: Syntax, verbatim: bool) -> Seq<u8> {
    let n = first_field(text, syntax, verbatim).len();
    if n < text.len() {
        text.skip((n + 1) as int)
    } else {
        Seq::empty()
    }
}

/// What is left of a text behind its first `n` names.
pub open spec fn skip_names(text: Seq<u8>, n: nat, syntax: Syntax, verbatim: bool) -> Seq<u8>
    decreases text.len(),
{
    if n == 0 || text.len() == 0 {
        text
    } else if is_name(first_field(text, syntax, verbatim), verbatim) {
        skip_names(without_first(text, syntax, verbatim), (n - 1) as nat, syntax, verbatim)
    } else {
        skip_names(without_first(text, syntax, verbatim), n, syntax, verbatim)
    }
}

/// A text without what stands before its first name.
pub open spec fn trim_start(text: Seq<u8>, syntax: Syntax, verbatim: bool) -> Seq<u8>
    decreases text.len(),
{
    if text.len() == 0 || is_name(first_field(text, syntax, verbatim), verbatim) {
        text
    } else {
        trim_start(without_first(text, syntax, verbatim), syntax, verbatim)
    }
}

/// A text without its last field and the separator before it.
pub open spec fn without_last(text: Seq<u8>, syntax: Syntax, verbatim: bool) -> Seq<u8> {
    let n = last_field(text, syntax, verbatim).len();
    if n < text.len() {
        text.take(text.len() - n - 1)
    } else {
        Seq::empty()
    }
}

/// A text without what stands behind its last name.
pub open spec fn trim_end(text: Seq<u8>, syntax: Syntax, verbatim: bool) -> Seq<u8>
    decreases text.len(),
{
    if text.len() == 0 || is_name(last_field(text, syntax, verbatim), verbatim) {
        text
    } else {
        trim_end(without_last(text, syntax, verbatim), syntax, verbatim)
    }
}

impl PathView {
    /// The number of bytes behind the prefix that are the root directory or a
    /// `.` at the beginning.
    pub open spec fn lead_size(self) -> nat {
        if self.has_leading_separator() || (!self.has_root() && begins_with_dot(
            self.body(),
            self.syntax,
        )) {
            1
        } else {
            0
        }
    }

    /// What stands behind the prefix, without what stands behind the last name.
    pub open spec fn trimmed_body(self) -> Seq<u8> {
        let lead = self.lead_size() as int;
        self.body().take(lead) + trim_end(self.body().skip(lead), self.syntax, self.is_verbatim())
    }

    /// What stands behind the first `n` names, without what stands before the
    /// next name and behind the last one.
    pub open spec fn behind_names(self, n: nat) -> Seq<u8> {
        let rest = skip_names(self.inner(), n, self.syntax, self.is_verbatim());
        trim_end(
            trim_start(rest, self.syntax, self.is_verbatim()),
            self.syntax,
            self.is_verbatim(),
        )
    }
}

/// The bytes of a path behind its first `n` components, as they stand there, but
/// without what stands behind the last name.
pub open spec fn tail_bytes(path: PathView, n: nat) -> Seq<u8> {
    let prefixed = path.prefix_parts().len();
    if n == 0 {
        path.bytes.take(path.prefix_size() as int) + path.trimmed_body()
    } else if n == prefixed {
        path.trimmed_body()
    } else {
        path.behind_names((n - prefixed - path.start_parts().len()) as nat)
    }
}

/// The part of a path behind its first `n` components.
pub open spec fn tail(path: PathView, n: nat) -> PathView {
    PathView { syntax: path.syntax, bytes: tail_bytes(path, n) }
}

/// Where `path` lies as seen from `base`, if it is `base` or lies below it.
pub open spec fn strip_prefix(path: PathView, base: PathView) -> Option<PathView> {
    if starts_with(path, base) {
        Some(tail(path, components(base).len()))
    } else {
        None
    }
}

// ---------------------------------------------------------------------------
// Fields of a text
// ---------------------------------------------------------------------------

/// The first field and the fields behind it.
pub proof fn lemma_fields_from_first(text: Seq<u8>, syntax: Syntax, verbatim: bool)
    ensures
        ({
            let sep = separators(syntax, verbatim);
            let first = first_field(text, syntax, verbatim);
            let rest = without_first(text, syntax, verbatim);
            &&& first.len() <= text.len()
            &&& first == text.take(first.len() as int)
            &&& free_of(first, sep)
            &&& text.len() > 0 ==> rest.len() < text.len()
            &&& first.len() < text.len() ==> sep(text[first.len() as int])
            &&& names(text, syntax, verbatim) == (if is_name(first, verbatim) {
                seq![first]
            } else {
                Seq::empty()
            }) + names(rest, syntax, verbatim)
        }),
{
    reveal(names);
    let sep = separators(syntax, verbatim);
    let pred = |s: Seq<u8>| is_name(s, verbatim);
    let first = first_field(text, syntax, verbatim);
    let rest = without_first(text, syntax, verbatim);
    lemma_first_field(text, sep);
    lemma_split_fields(text, sep);
    split_on(rest, sep).lemma_filter_prepend(first, pred);
    if first.len() == text.len() {
        assert(split_on(text, sep) =~= Seq::<Seq<u8>>::empty().push(first));
        Seq::<Seq<u8>>::empty().lemma_filter_push(first, pred);
        assert(split_on(rest, sep) =~= Seq::<Seq<u8>>::empty().push(Seq::empty()));
        Seq::<Seq<u8>>::empty().lemma_filter_push(Seq::empty(), pred);
    }
    assert(names(text, syntax, verbatim) =~= (if is_name(first, verbatim) {
        seq![first]
    } else {
        Seq::empty()
    }) + names(rest, syntax, verbatim));
}

/// An empty text has no names.
pub proof fn lemma_no_names(syntax: Syntax, verbatim: bool)
    ensures
        names(Seq::empty(), syntax, verbatim) == Seq::<Seq<u8>>::empty(),
        first_field(Seq::empty(), syntax, verbatim) == Seq::<u8>::empty(),
{
    reveal(names);
    let pred = |s: Seq<u8>| is_name(s, verbatim);
    assert(split_on(Seq::<u8>::empty(), separators(syntax, verbatim)) =~= Seq::<
        Seq<u8>,
    >::empty().push(Seq::empty()));
    Seq::<Seq<u8>>::empty().lemma_filter_push(Seq::empty(), pred);
}

/// Names are names.
pub proof fn lemma_names_are_names(text: Seq<u8>, syntax: Syntax, verbatim: bool)
    ensures
        forall|i: int|
            0 <= i < names(text, syntax, verbatim).len() ==> is_name(
                #[trigger] names(text, syntax, verbatim)[i],
                verbatim,
            ),
{
    reveal(names);
    let pred = |s: Seq<u8>| is_name(s, verbatim);
    let fields = split_on(text, separators(syntax, verbatim));
    assert forall|i: int| 0 <= i < names(text, syntax, verbatim).len() implies is_name(
        #[trigger] names(text, syntax, verbatim)[i],
        verbatim,
    ) by {
        fields.lemma_filter_pred(pred, i);
    }
}

/// A separator between two texts keeps their names apart.
pub proof fn lemma_names_concat(a: Seq<u8>, c: u8, b: Seq<u8>, syntax: Syntax, verbatim: bool)
    requires
        separators(syntax, verbatim)(c),
    ensures
        names(a.push(c) + b, syntax, verbatim) == names(a, syntax, verbatim) + names(
            b,
            syntax,
            verbatim,
        ),
{
    reveal(names);
    let sep = separators(syntax, verbatim);
    lemma_split_concat(a, c, b, sep);
    Seq::filter_distributes_over_add(
        split_on(a, sep),
        split_on(b, sep),
        |s: Seq<u8>| is_name(s, verbatim),
    );
}

proof fn lemma_skip_names(text: Seq<u8>, n: nat, syntax: Syntax, verbatim: bool)
    requires
        n <= names(text, syntax, verbatim).len(),
    ensures
        names(skip_names(text, n, syntax, verbatim), syntax, verbatim) == names(
            text,
            syntax,
            verbatim,
        ).skip(n as int),
    decreases text.len(),
{
    let all = names(text, syntax, verbatim);
    if n == 0 {
        assert(all.skip(0) =~= all);
    } else if text.len() == 0 {
        assert(text =~= Seq::empty());
        lemma_no_names(syntax, verbatim);
    } else {
        let first = first_field(text, syntax, verbatim);
        let rest = without_first(text, syntax, verbatim);
        lemma_fields_from_first(text, syntax, verbatim);
        if is_name(first, verbatim) {
            lemma_skip_names(rest, (n - 1) as nat, syntax, verbatim);
            assert(all.skip(n as int) =~= names(rest, syntax, verbatim).skip(n - 1));
        } else {
            assert(all =~= names(rest, syntax, verbatim));
            lemma_skip_names(rest, n, syntax, verbatim);
        }
    }
}

pub proof fn lemma_trim_start(text: Seq<u8>, syntax: Syntax, verbatim: bool)
    ensures
        names(trim_start(text, syntax, verbatim), syntax, verbatim) == names(
            text,
            syntax,
            verbatim,
        ),
        trim_start(text, syntax, verbatim).len() > 0 ==> is_name(
            first_field(trim_start(text, syntax, verbatim), syntax, verbatim),
            verbatim,
        ),
    decreases text.len(),
{
    if text.len() > 0 && !is_name(first_field(text, syntax, verbatim), verbatim) {
        lemma_fields_from_first(text, syntax, verbatim);
        let rest = without_first(text, syntax, verbatim);
        lemma_trim_start(rest, syntax, verbatim);
        assert(names(text, syntax, verbatim) =~= names(rest, syntax, verbatim));
    }
}

pub proof fn lemma_trim_end(text: Seq<u8>, syntax: Syntax, verbatim: bool)
    ensures
        ({
            let kept = trim_end(text, syntax, verbatim);
            let first = first_field(text, syntax, verbatim);
            &&& names(kept, syntax, verbatim) == names(text, syntax, verbatim)
            &&& kept.len() <= text.len()
            &&& kept == text.take(kept.len() as int)
            &&& 0 < kept.len() < text.len() ==> separators(syntax, verbatim)(
                text[kept.len() as int],
            )
            &&& text.len() > 0 && is_name(first, verbatim) ==> kept.len() > 0 && first_field(
                kept,
                syntax,
                verbatim,
            ) == first
        }),
    decreases text.len(),
{
    reveal(names);
    let sep = separators(syntax, verbatim);
    let last = last_field(text, syntax, verbatim);
    if text.len() == 0 || is_name(last, verbatim) {
        assert(text.take(text.len() as int) =~= text);
    } else {
        let pred = |s: Seq<u8>| is_name(s, verbatim);
        let shorter = without_last(text, syntax, verbatim);
        let kept = trim_end(text, syntax, verbatim);
        lemma_last_field(text, sep);
        lemma_trim_end(shorter, syntax, verbatim);
        if last.len() < text.len() {
            split_on(shorter, sep).lemma_filter_push(last, pred);
            lemma_split_fields(shorter, sep);
            assert(first_field(text, syntax, verbatim) == first_field(shorter, syntax, verbatim));
            if shorter.len() == 0 {
                assert(shorter =~= Seq::empty());
                lemma_no_names(syntax, verbatim);
            }
        } else {
            assert(split_on(text, sep) =~= Seq::<Seq<u8>>::empty().push(last));
            Seq::<Seq<u8>>::empty().lemma_filter_push(last, pred);
            lemma_no_names(syntax, verbatim);
        }
        assert(names(shorter, syntax, verbatim) =~= names(text, syntax, verbatim));
        assert(shorter.take(kept.len() as int) =~= text.take(kept.len() as int));
    }
}

// ---------------------------------------------------------------------------
// The executable type
// ---------------------------------------------------------------------------

/// One component of a path.
#[derive(Debug, PartialEq)]
pub enum PathPart {
    /// What a Windows path can begin with.
    Prefix(PathPrefix),
    /// The root directory.
    Root,
    /// A name, or one of `.` and `..`.
    Segment(Vec<u8>),
}

impl View for PathPart {
    type V = PartView;

    open spec fn view(&self) -> PartView {
        match self {
            PathPart::Prefix(p) => PartView::Prefix(p@),
            PathPart::Root => PartView::Root,
            PathPart::Segment(s) => PartView::Segment(s@),
        }
    }
}

/// Components as they are viewed.
pub open spec fn part_views(parts: Seq<PathPart>) -> Seq<PartView> {
    parts.map_values(|p: PathPart| p@)
}

/// A file path. Two of them are equal if their components are.
#[derive(Debug)]
pub struct FilePath {
    syntax: Syntax,
    bytes: Vec<u8>,
}

impl View for FilePath {
    type V = PathView;

    closed spec fn view(&self) -> PathView {
        PathView { syntax: self.syntax, bytes: self.bytes@ }
    }
}

impl Clone for FilePath {
    fn clone(&self) -> (r: Self)
        ensures
            r@ == self@,
    {
        FilePath { syntax: self.syntax, bytes: copy_range(&self.bytes, 0, self.bytes.len()) }
    }
}

impl PartialEq for FilePath {
    fn eq(&self, other: &Self) -> (r: bool) {
        self.same_path(other)
    }
}

impl vstd::std_specs::cmp::PartialEqSpecImpl for FilePath {
    open spec fn obeys_eq_spec() -> bool {
        true
    }

    open spec fn eq_spec(&self, other: &Self) -> bool {
        same_path(self@, other@)
    }
}

impl Eq for FilePath {

}

/// Whether a byte separates components.
fn byte_separates(b: u8, syntax: Syntax, verbatim: bool) -> (r: bool)
    ensures
        r == separators(syntax, verbatim)(b),
{
    match syntax {
        Syntax::Unix => b == SLASH && !verbatim,
        Syntax::Windows => b == BACKSLASH || (b == SLASH && !verbatim),
    }
}

/// Whether the bytes from `from` up to `to` are a name.
fn range_is_name(text: &Vec<u8>, from: usize, to: usize, verbatim: bool) -> (r: bool)
    requires
        from <= to <= text@.len(),
    ensures
        r == is_name(text@.subrange(from as int, to as int), verbatim),
{
    let r = from < to && (verbatim || !(to - from == 1 && text[from] == DOT));
    proof {
        let segment = text@.subrange(from as int, to as int);
        if segment.len() == 1 && segment[0] == DOT {
            assert(segment =~= seq![DOT]);
        }
    }
    r
}

/// The length of the first field of a text.
fn first_field_len(text: &Vec<u8>, syntax: Syntax, verbatim: bool) -> (r: usize)
    ensures
        r <= text@.len(),
        first_field(text@, syntax, verbatim) == text@.subrange(0, r as int),
{
    let mut i: usize = 0;
    while i < text.len() && !byte_separates(text[i], syntax, verbatim)
        invariant
            i <= text@.len(),
            forall|j: int| 0 <= j < i ==> !separators(syntax, verbatim)(#[trigger] text@[j]),
        decreases text.len() - i,
    {
        i = i + 1;
    }
    proof {
        let first = first_field(text@, syntax, verbatim);
        lemma_fields_from_first(text@, syntax, verbatim);
        if i < first.len() {
            assert(first[i as int] == text@[i as int]);
        }
        assert(first =~= text@.subrange(0, i as int));
    }
    i
}

/// The length of the last field of a text.
fn last_field_len(text: &Vec<u8>, syntax: Syntax, verbatim: bool) -> (r: usize)
    ensures
        r <= text@.len(),
        last_field(text@, syntax, verbatim) == text@.subrange(
            text@.len() - r,
            text@.len() as int,
        ),
{
    let len: usize = text.len();
    let mut i: usize = len;
    while i > 0 && !byte_separates(text[i - 1], syntax, verbatim)
        invariant
            i <= len == text@.len(),
            forall|j: int| i <= j < len ==> !separators(syntax, verbatim)(#[trigger] text@[j]),
        decreases i,
    {
        i = i - 1;
    }
    proof {
        let last = last_field(text@, syntax, verbatim);
        let n = len - last.len();
        lemma_last_field(text@, separators(syntax, verbatim));
        if n < i {
            assert(last[i - 1 - n] == text@[i - 1]);
        }
        assert(last =~= text@.subrange(i as int, len as int));
    }
    len - i
}

/// What is left of a text behind its first `n` names.
fn skip_text_names(text: Vec<u8>, n: usize, syntax: Syntax, verbatim: bool) -> (r: Vec<u8>)
    ensures
        r@ == skip_names(text@, n as nat, syntax, verbatim),
{
    let ghost target = skip_names(text@, n as nat, syntax, verbatim);
    let mut text = text;
    let mut left: usize = n;
    while left > 0 && text.len() > 0
        invariant
            skip_names(text@, left as nat, syntax, verbatim) == target,
        decreases text@.len(),
    {
        let size = first_field_len(&text, syntax, verbatim);
        let len: usize = text.len();
        if range_is_name(&text, 0, size, verbatim) {
            left = left - 1;
        }
        let ghost before = text@;
        text =
        if size < len {
            copy_range(&text, size + 1, len)
        } else {
            Vec::new()
        };
        assert(text@ =~= without_first(before, syntax, verbatim));
    }
    text
}

/// A text without what stands before its first name.
fn trim_text_start(whole: Vec<u8>, syntax: Syntax, verbatim: bool) -> (r: Vec<u8>)
    ensures
        r@ == trim_start(whole@, syntax, verbatim),
{
    let mut text = whole;
    while text.len() > 0
        invariant
            trim_start(text@, syntax, verbatim) == trim_start(whole@, syntax, verbatim),
        decreases text@.len(),
    {
        let size = first_field_len(&text, syntax, verbatim);
        let len: usize = text.len();
        if range_is_name(&text, 0, size, verbatim) {
            return text;
        }
        let ghost before = text@;
        text =
        if size < len {
            copy_range(&text, size + 1, len)
        } else {
            Vec::new()
        };
        assert(text@ =~= without_first(before, syntax, verbatim));
    }
    text
}

/// A text without what stands behind its last name.
fn trim_text_end(whole: Vec<u8>, syntax: Syntax, verbatim: bool) -> (r: Vec<u8>)
    ensures
        r@ == trim_end(whole@, syntax, verbatim),
{
    let mut text = whole;
    while text.len() > 0
        invariant
            trim_end(text@, syntax, verbatim) == trim_end(whole@, syntax, verbatim),
        decreases text@.len(),
    {
        let size = last_field_len(&text, syntax, verbatim);
        let len: usize = text.len();
        if range_is_name(&text, len - size, len, verbatim) {
            return text;
        }
        let ghost before = text@;
        text =
        if size < len {
            copy_range(&text, 0, len - size - 1)
        } else {
            Vec::new()
        };
        assert(text@ =~= without_last(before, syntax, verbatim));
    }
    text
}

/// Puts the names of a text behind components.
fn push_names(parts: &mut Vec<PathPart>, text: Vec<u8>, syntax: Syntax, verbatim: bool)
    ensures
        part_views(final(parts)@) == part_views(old(parts)@) + segment_parts(
            names(text@, syntax, verbatim),
        ),
{
    let ghost all = names(text@, syntax, verbatim);
    let ghost before = part_views(parts@);
    let mut rest = text;
    let ghost mut done: Seq<Seq<u8>> = Seq::empty();
    assert(part_views(parts@) =~= before + segment_parts(done));
    assert(all =~= done + names(rest@, syntax, verbatim));
    while rest.len() > 0
        invariant
            part_views(parts@) == before + segment_parts(done),
            all == done + names(rest@, syntax, verbatim),
        decreases rest@.len(),
    {
        let size = first_field_len(&rest, syntax, verbatim);
        let len: usize = rest.len();
        let ghost text = rest@;
        proof {
            lemma_fields_from_first(text, syntax, verbatim);
        }
        if range_is_name(&rest, 0, size, verbatim) {
            let name = copy_range(&rest, 0, size);
            let ghost so_far = part_views(parts@);
            let ghost part = PartView::Segment(name@);
            parts.push(PathPart::Segment(name));
            assert(part_views(parts@) =~= so_far.push(part));
            proof {
                assert(segment_parts(done.push(name@)) =~= segment_parts(done).push(part));
                done = done.push(name@);
            }
            assert(part_views(parts@) =~= before + segment_parts(done));
        }
        rest =
        if size < len {
            copy_range(&rest, size + 1, len)
        } else {
            Vec::new()
        };
        assert(rest@ =~= without_first(text, syntax, verbatim));
        assert(all =~= done + names(rest@, syntax, verbatim));
    }
    proof {
        assert(rest@ =~= Seq::empty());
        lemma_no_names(syntax, verbatim);
        assert(all =~= done);
    }
}

/// Puts a byte string behind another one.
fn append_bytes(out: &mut Vec<u8>, bytes: &Vec<u8>)
    ensures
        final(out)@ == old(out)@ + bytes@,
{
    let mut copy = copy_range(bytes, 0, bytes.len());
    out.append(&mut copy);
    assert(out@ =~= old(out)@ + bytes@);
}

/// Whether a segment is `.`.
fn is_dot(segment: &Vec<u8>) -> (r: bool)
    ensures
        r == (segment@ == seq![DOT]),
{
    let r = segment.len() == 1 && segment[0] == DOT;
    assert(r ==> segment@ =~= seq![DOT]);
    r
}

/// Whether a segment is `..`.
fn is_dot_dot(segment: &Vec<u8>) -> (r: bool)
    ensures
        r == (segment@ == seq![DOT, DOT]),
{
    let r = segment.len() == 2 && segment[0] == DOT && segment[1] == DOT;
    assert(r ==> segment@ =~= seq![DOT, DOT]);
    r
}

/// Whether the last component is the name of a file.
fn ends_with_file_name(parts: &Vec<PathPart>) -> (r: bool)
    ensures
        r == (parts@.len() > 0 && is_file_name(parts@.last()@)),
{
    if parts.len() == 0 {
        return false;
    }
    match &parts[parts.len() - 1] {
        PathPart::Segment(s) => !is_dot(s) && !is_dot_dot(s),
        _ => false,
    }
}

/// Puts one more component behind those of a verbatim path.
fn push_one(parts: &mut Vec<PathPart>, part: &PathPart)
    ensures
        part_views(final(parts)@) == push_part(part_views(old(parts)@), part@),
{
    let ghost before = part_views(parts@);
    assert(before.len() == parts@.len());
    match part {
        PathPart::Root => {
            parts.clear();
            parts.push(PathPart::Root);
            assert(part_views(parts@) =~= seq![PartView::Root]);
        },
        PathPart::Segment(s) => {
            if is_dot(s) {
            } else if is_dot_dot(s) {
                assert(before.len() > 0 ==> before.last() == parts@.last()@);
                if ends_with_file_name(parts) {
                    parts.pop();
                    assert(part_views(parts@) =~= before.drop_last());
                }
            } else {
                let copy = copy_range(s, 0, s.len());
                assert(copy@ =~= s@);
                parts.push(PathPart::Segment(copy));
                assert(part_views(parts@) =~= before.push(part@));
            }
            proof {
                let dot = seq![DOT];
                let dots = seq![DOT, DOT];
                assert(dot.len() == 1 && dots.len() == 2);
            }
        },
        PathPart::Prefix(_) => {},
    }
}

/// Writes a verbatim path with a prefix and the components behind it.
fn write_parts(prefix: Vec<u8>, parts: &Vec<PathPart>) -> (r: Vec<u8>)
    ensures
        r@ == written(prefix@, part_views(parts@)),
{
    let ghost start = prefix@;
    let ghost all = part_views(parts@);
    let mut out = prefix;
    let mut i: usize = 0;
    assert(all.take(0) =~= Seq::empty());
    while i < parts.len()
        invariant
            all == part_views(parts@),
            i <= parts@.len(),
            out@ == written(start, all.take(i as int)),
        decreases parts.len() - i,
    {
        let ghost next = all.take(i + 1);
        assert(next.drop_last() =~= all.take(i as int));
        assert(next.last() == parts@[i as int]@);
        assert(i > 0 ==> next[i - 1] == parts@[i - 1]@);
        match &parts[i] {
            PathPart::Segment(s) => {
                let mut behind_root = false;
                if i > 0 {
                    if let PathPart::Root = &parts[i - 1] {
                        behind_root = true;
                    }
                }
                if !behind_root {
                    out.push(BACKSLASH);
                }
                append_bytes(&mut out, s);
            },
            _ => {
                out.push(BACKSLASH);
            },
        }
        assert(out@ =~= written(start, next));
        i = i + 1;
    }
    assert(all.take(i as int) =~= all);
    out
}

/// What stands where in a path.
struct Layout {
    prefix: Option<PathPrefix>,
    size: usize,
    verbatim: bool,
    leading: bool,
    dotted: bool,
}

impl Layout {
    /// The layout is that of the path.
    closed spec fn is_of(self, path: PathView) -> bool {
        &&& self.prefix is Some <==> path.prefix() is Some
        &&& self.prefix matches Some(p) ==> p@ == path.prefix()->0
        &&& self.size == path.prefix_size()
        &&& self.size <= path.bytes.len()
        &&& self.verbatim == path.is_verbatim()
        &&& self.leading == path.has_leading_separator()
        &&& self.dotted == begins_with_dot(path.body(), path.syntax)
    }

    /// Whether the prefix, if there is one, is a drive.
    fn is_drive_at_most(&self) -> (r: bool)
        ensures
            r == (self.prefix matches Some(p) ==> p@ is Disk),
    {
        match &self.prefix {
            Some(p) => p.is_disk(),
            None => true,
        }
    }
}

impl FilePath {
    /// The path that is written with the given bytes.
    pub fn new(syntax: Syntax, bytes: Vec<u8>) -> (r: Self)
        ensures
            r@ == (PathView { syntax, bytes: bytes@ }),
    {
        FilePath { syntax, bytes }
    }

    /// The path that is written with the UTF-8 form of `text`.
    pub fn from_text(syntax: Syntax, text: &str) -> (r: Self)
        ensures
            r@ == (PathView { syntax, bytes: encode_utf8(text@) }),
    {
        FilePath { syntax, bytes: text.as_bytes_vec() }
    }

    /// The syntax that the path is written in.
    pub fn syntax(&self) -> (r: Syntax)
        ensures
            r == self@.syntax,
    {
        self.syntax
    }

    /// The bytes that the path is written with.
    pub fn as_bytes(&self) -> (r: &[u8])
        ensures
            r@ == self@.bytes,
    {
        self.bytes.as_slice()
    }

    /// The path as a text. Bytes that are not UTF-8 are replaced.
    pub fn to_text(&self) -> (r: String)
        ensures
            r@ == text_of(self@.bytes),
    {
        bytes_to_text(self.bytes.as_slice())
    }

    /// Finds what stands where.
    fn layout(&self) -> (r: Layout)
        ensures
            r.is_of(self@),
    {
        proof {
            lemma_layout(self@);
        }
        let prefix = match self.syntax {
            Syntax::Unix => None,
            Syntax::Windows => find_prefix(&self.bytes),
        };
        let size: usize = match &prefix {
            Some(p) => p.size(&self.bytes),
            None => 0,
        };
        let verbatim = match &prefix {
            Some(p) => p.is_verbatim(),
            None => false,
        };
        let len: usize = self.bytes.len();
        let leading = size < len && byte_separates(self.bytes[size], self.syntax, false);
        let dotted = size < len && self.bytes[size] == DOT && (len - size == 1 || byte_separates(
            self.bytes[size + 1],
            self.syntax,
            false,
        ));
        Layout { prefix, size, verbatim, leading, dotted }
    }

    /// Whether the path does not depend on a current directory.
    pub fn is_absolute(&self) -> (r: bool)
        ensures
            r == is_absolute(self@),
    {
        let layout = self.layout();
        match self.syntax {
            Syntax::Unix => layout.leading,
            Syntax::Windows => layout.prefix.is_some() && (layout.leading
                || !layout.is_drive_at_most()),
        }
    }

    /// The components of the path.
    pub fn components(&self) -> (r: Vec<PathPart>)
        ensures
            part_views(r@) == components(self@),
    {
        let layout = self.layout();
        let at_most_drive = layout.is_drive_at_most();
        let len: usize = self.bytes.len();
        let mut parts: Vec<PathPart> = Vec::new();
        let has_prefix = layout.prefix.is_some();
        if let Some(p) = layout.prefix {
            parts.push(PathPart::Prefix(p));
        }
        assert(part_views(parts@) =~= self@.prefix_parts());
        if layout.leading || (has_prefix && !at_most_drive && !layout.verbatim) {
            parts.push(PathPart::Root);
        } else if !has_prefix && layout.dotted {
            let mut dot: Vec<u8> = Vec::new();
            dot.push(DOT);
            assert(dot@ =~= seq![DOT]);
            parts.push(PathPart::Segment(dot));
        }
        assert(part_views(parts@) =~= self@.prefix_parts() + self@.start_parts());
        let from: usize = if layout.leading {
            layout.size + 1
        } else {
            layout.size
        };
        let inner = copy_range(&self.bytes, from, len);
        assert(inner@ =~= self@.inner());
        push_names(&mut parts, inner, self.syntax, layout.verbatim);
        parts
    }

    /// Whether two paths have the same components.
    pub fn same_path(&self, other: &FilePath) -> (r: bool)
        ensures
            r == same_path(self@, other@),
    {
        let a = self.components();
        let b = other.components();
        let prefix = parts_start_with(&a, &b);
        proof {
            assert(part_views(a@).len() == a@.len());
            assert(part_views(b@).len() == b@.len());
            if prefix && a@.len() == b@.len() {
                assert(components(self@) =~= components(other@));
            }
        }
        self.syntax == other.syntax && a.len() == b.len() && prefix
    }

    /// Whether the path is `base` or lies below it.
    pub fn starts_with(&self, base: &FilePath) -> (r: bool)
        ensures
            r == starts_with(self@, base@),
    {
        let a = self.components();
        let b = base.components();
        self.syntax == base.syntax && parts_start_with(&a, &b)
    }

    /// The part of the path behind its first `n` components.
    fn tail(&self, n: usize) -> (r: FilePath)
        requires
            n <= components(self@).len(),
        ensures
            r@ == tail(self@, n as nat),
    {
        let layout = self.layout();
        let syntax = self.syntax;
        let verbatim = layout.verbatim;
        let at_most_drive = layout.is_drive_at_most();
        let size: usize = layout.size;
        let len: usize = self.bytes.len();
        let prefixed: usize = if layout.prefix.is_some() {
            1
        } else {
            0
        };
        proof {
            lemma_layout(self@);
        }
        assert(prefixed == self@.prefix_parts().len());
        if n <= prefixed {
            let lead: usize = if layout.leading || (at_most_drive && layout.dotted) {
                1
            } else {
                0
            };
            assert(lead == self@.lead_size());
            let behind = copy_range(&self.bytes, size + lead, len);
            assert(behind@ =~= self@.body().skip(lead as int));
            let mut end = trim_text_end(behind, syntax, verbatim);
            let from: usize = if n == 0 {
                0
            } else {
                size
            };
            let mut bytes = copy_range(&self.bytes, from, size + lead);
            bytes.append(&mut end);
            assert(bytes@ =~= tail_bytes(self@, n as nat));
            return FilePath { syntax, bytes };
        }
        let started: usize = if layout.leading || (prefixed == 1 && !at_most_drive && !verbatim)
            || (prefixed == 0 && layout.dotted) {
            1
        } else {
            0
        };
        assert(started == self@.start_parts().len());
        let from: usize = if layout.leading {
            size + 1
        } else {
            size
        };
        let inner = copy_range(&self.bytes, from, len);
        assert(inner@ =~= self@.inner());
        let rest = skip_text_names(inner, n - prefixed - started, syntax, verbatim);
        let bytes = trim_text_end(trim_text_start(rest, syntax, verbatim), syntax, verbatim);
        FilePath { syntax, bytes }
    }

    /// Where the path lies as seen from `base`, if it is `base` or lies below it.
    pub fn strip_prefix(&self, base: &FilePath) -> (r: Option<FilePath>)
        ensures
            r is Some <==> strip_prefix(self@, base@) is Some,
            r matches Some(rest) ==> rest@ == strip_prefix(self@, base@)->0,
    {
        let a = self.components();
        let b = base.components();
        assert(part_views(b@).len() == b@.len());
        if self.syntax == base.syntax && parts_start_with(&a, &b) {
            Some(self.tail(b.len()))
        } else {
            None
        }
    }

    /// `part` seen from the directory that this path names.
    pub fn join(&self, part: &FilePath) -> (r: FilePath)
        ensures
            r@ == join(self@, part@),
    {
        let syntax = self.syntax;
        let own = FilePath { syntax, bytes: copy_range(&part.bytes, 0, part.bytes.len()) };
        assert(own@ =~= (PathView { syntax, ..part@ }));
        let seen = own.layout();
        let layout = self.layout();
        let len: usize = self.bytes.len();
        proof {
            lemma_layout(self@);
        }
        if own.is_absolute() || seen.prefix.is_some() {
            return own;
        }
        if layout.verbatim && own.bytes.len() > 0 {
            let mut parts = self.components();
            let ghost all = components(self@);
            assert(all[0] is Prefix && parts@.len() == all.len());
            let first = parts.remove(0);
            assert(part_views(parts@) =~= all.skip(1));
            let more = own.components();
            let ghost added = components(own@);
            let mut i: usize = 0;
            assert(added.take(0) =~= Seq::empty());
            while i < more.len()
                invariant
                    added == part_views(more@),
                    i <= more@.len(),
                    part_views(parts@) == push_parts(all.skip(1), added.take(i as int)),
                decreases more.len() - i,
            {
                let ghost next = added.take(i + 1);
                assert(next.drop_last() =~= added.take(i as int));
                assert(next.last() == more@[i as int]@);
                push_one(&mut parts, &more[i]);
                i = i + 1;
            }
            assert(added.take(i as int) =~= added);
            let prefix = copy_range(&self.bytes, 0, layout.size);
            assert(prefix@ =~= self@.bytes.take(self@.prefix_size() as int));
            return FilePath { syntax, bytes: write_parts(prefix, &parts) };
        }
        if seen.leading {
            let mut bytes = copy_range(&self.bytes, 0, layout.size);
            assert(bytes@ =~= self@.bytes.take(self@.prefix_size() as int));
            append_bytes(&mut bytes, &own.bytes);
            return FilePath { syntax, bytes };
        }
        let drive_alone = layout.prefix.is_some() && layout.is_drive_at_most() && layout.size
            == len;
        let mut bytes = copy_range(&self.bytes, 0, len);
        assert(bytes@ =~= self.bytes@);
        if len > 0 && !byte_separates(bytes[len - 1], syntax, false) && !drive_alone {
            match syntax {
                Syntax::Unix => bytes.push(SLASH),
                Syntax::Windows => bytes.push(BACKSLASH),
            }
        }
        append_bytes(&mut bytes, &own.bytes);
        FilePath { syntax, bytes }
    }
}

/// Whether two components are the same.
fn same_part(a: &PathPart, b: &PathPart) -> (r: bool)
    ensures
        r == (a@ == b@),
{
    match (a, b) {
        (PathPart::Prefix(p), PathPart::Prefix(q)) => p.same_prefix(q),
        (PathPart::Root, PathPart::Root) => true,
        (PathPart::Segment(s), PathPart::Segment(t)) => bytes_equal(s, t),
        _ => false,
    }
}

/// Whether `base` is a prefix of `path`.
fn parts_start_with(path: &Vec<PathPart>, base: &Vec<PathPart>) -> (r: bool)
    ensures
        r == part_views(base@).is_prefix_of(part_views(path@)),
{
    let ghost p = part_views(path@);
    let ghost b = part_views(base@);
    assert(p.len() == path@.len() && b.len() == base@.len());
    if base.len() > path.len() {
        return false;
    }
    let mut i: usize = 0;
    while i < base.len()
        invariant
            p == part_views(path@),
            b == part_views(base@),
            base@.len() <= path@.len(),
            i <= base@.len(),
            forall|j: int| 0 <= j < i ==> b[j] == p[j],
        decreases base.len() - i,
    {
        assert(b[i as int] == base@[i as int]@ && p[i as int] == path@[i as int]@);
        if !same_part(&path[i], &base[i]) {
            proof {
                if b.is_prefix_of(p) {
                    assert(p.take(b.len() as int)[i as int] == p[i as int]);
                }
            }
            return false;
        }
        i = i + 1;
    }
    assert(p.take(b.len() as int) =~= b);
    true
}

// ---------------------------------------------------------------------------
// Laws
// ---------------------------------------------------------------------------

/// What stands where in a path.
pub proof fn lemma_layout(path: PathView)
    ensures
        path.prefix_size() <= path.bytes.len(),
        path.bytes.take(path.prefix_size() as int) + path.body() == path.bytes,
        path.prefix() matches Some(p) && !(p is Disk) && path.body().len() > 0
            ==> path.has_leading_separator(),
        path.prefix() is None ==> path.body() == path.bytes,
{
    lemma_prefix_size(path.bytes);
    assert(path.bytes.take(path.prefix_size() as int) + path.body() =~= path.bytes);
    if path.prefix() is None {
        assert(path.body() =~= path.bytes);
    }
}

/// A `.` at the beginning is the first field.
pub proof fn lemma_dot_first(text: Seq<u8>, syntax: Syntax)
    ensures
        begins_with_dot(text, syntax) <==> first_field(text, syntax, false) == seq![DOT],
{
    let first = first_field(text, syntax, false);
    let sep = separators(syntax, false);
    lemma_fields_from_first(text, syntax, false);
    if begins_with_dot(text, syntax) {
        if first.len() == 0 {
            assert(sep(text[0]));
        }
        if first.len() > 1 {
            assert(first[1] == text[1]);
            assert(sep(text[1]));
        }
        assert(first[0] == text[0]);
        assert(first =~= seq![DOT]);
    }
    if first == seq![DOT] {
        assert(text[0] == first[0]);
    }
}

/// A `.` before a separator adds no name.
proof fn lemma_names_behind_dot(text: Seq<u8>, syntax: Syntax)
    requires
        text.len() > 0 ==> is_separator(syntax, text[0]),
    ensures
        names(seq![DOT] + text, syntax, false) == names(text, syntax, false),
{
    let dot = seq![DOT];
    lemma_dot_first(dot, syntax);
    lemma_fields_from_first(dot, syntax, false);
    lemma_no_names(syntax, false);
    assert(names(dot, syntax, false) =~= Seq::empty());
    if text.len() > 0 {
        let rest = text.skip(1);
        assert(dot + text =~= dot.push(text[0]) + rest);
        assert(text =~= Seq::<u8>::empty().push(text[0]) + rest);
        lemma_names_concat(dot, text[0], rest, syntax, false);
        lemma_names_concat(Seq::empty(), text[0], rest, syntax, false);
    } else {
        assert(text =~= Seq::empty());
        assert(dot + text =~= dot);
    }
}

/// Only the empty path has no components.
pub proof fn law_empty_path(path: PathView)
    ensures
        components(path).len() == 0 <==> path.bytes.len() == 0,
{
    lemma_layout(path);
    if path.bytes.len() == 0 {
        assert(path.inner() =~= Seq::empty());
        lemma_no_names(path.syntax, path.is_verbatim());
    } else if path.prefix() is None && !path.has_leading_separator() {
        lemma_dot_first(path.bytes, path.syntax);
        lemma_fields_from_first(path.bytes, path.syntax, false);
    }
}

/// What the components behind the prefix are read from stays when a path is
/// trimmed at its end.
#[verifier::rlimit(30)]
proof fn lemma_trimmed_body(path: PathView)
    ensures
        ({
            let rest = path.trimmed_body();
            &&& rest.len() <= path.body().len()
            &&& rest == path.body().take(rest.len() as int)
            &&& path.has_leading_separator() ==> rest.len() > 0 && names(
                rest.skip(1),
                path.syntax,
                path.is_verbatim(),
            ) == names(path.inner(), path.syntax, path.is_verbatim())
            &&& !path.has_leading_separator() ==> (rest.len() > 0 ==> !is_separator(
                path.syntax,
                rest[0],
            ))
            &&& !path.has_leading_separator() ==> names(rest, path.syntax, path.is_verbatim())
                == names(path.inner(), path.syntax, path.is_verbatim())
            &&& !path.has_root() ==> begins_with_dot(rest, path.syntax) == begins_with_dot(
                path.body(),
                path.syntax,
            )
        }),
{
    let body = path.body();
    let lead = path.lead_size() as int;
    let behind = body.skip(lead);
    let kept = trim_end(behind, path.syntax, path.is_verbatim());
    let rest = path.trimmed_body();
    lemma_layout(path);
    lemma_trim_end(behind, path.syntax, path.is_verbatim());
    assert(rest =~= body.take(lead + kept.len()));
    if path.has_leading_separator() {
        assert(rest.skip(1) =~= kept);
        assert(behind =~= path.inner());
    } else if lead == 1 {
        assert(rest =~= seq![DOT] + kept);
        assert(body =~= seq![DOT] + behind);
        lemma_names_behind_dot(behind, path.syntax);
        lemma_names_behind_dot(kept, path.syntax);
    } else {
        assert(behind =~= body);
        assert(rest =~= kept);
    }
}

/// A path that is trimmed at its end keeps its components.
#[verifier::rlimit(30)]
pub proof fn lemma_tail_of_none(path: PathView)
    ensures
        components(tail(path, 0)) == components(path),
{
    let t = tail(path, 0);
    let rest = path.trimmed_body();
    let size = path.prefix_size() as int;
    lemma_layout(path);
    lemma_trimmed_body(path);
    assert(t.bytes =~= path.bytes.take(size + rest.len()));
    assert(t.prefix() == path.prefix()) by {
        if path.syntax is Windows {
            if path.prefix() is Some {
                if size < path.bytes.len() && is_slash(path.bytes[size]) {
                    assert(path.body()[0] == path.bytes[size]);
                    assert(path.has_leading_separator());
                }
                lemma_prefix_when_cut(path.bytes, size + rest.len());
            } else {
                lemma_no_prefix_when_cut(path.bytes, size + rest.len());
            }
        }
    }
    assert(t.body() =~= rest);
    if path.has_leading_separator() {
        assert(rest[0] == path.body()[0]);
    }
    assert(t.has_leading_separator() == path.has_leading_separator());
    assert(t.start_parts() =~= path.start_parts());
    assert(t.name_parts() =~= path.name_parts());
}

/// What stands behind names has the names that are left, and begins with one.
pub proof fn lemma_behind_names(path: PathView, n: nat)
    requires
        n <= names(path.inner(), path.syntax, path.is_verbatim()).len(),
    ensures
        ({
            let v = path.is_verbatim();
            let rest = path.behind_names(n);
            &&& names(rest, path.syntax, v) == names(path.inner(), path.syntax, v).skip(n as int)
            &&& rest.len() > 0 ==> is_name(first_field(rest, path.syntax, v), v)
        }),
{
    let v = path.is_verbatim();
    let skipped = skip_names(path.inner(), n, path.syntax, v);
    lemma_skip_names(path.inner(), n, path.syntax, v);
    lemma_trim_start(skipped, path.syntax, v);
    lemma_trim_end(trim_start(skipped, path.syntax, v), path.syntax, v);
}

/// A text that begins with a name, and is not read as if it had a prefix, has
/// its names as components.
pub proof fn lemma_named_components(path: PathView)
    requires
        path.prefix() is None,
        path.bytes.len() > 0 ==> is_name(first_field(path.bytes, path.syntax, false), false),
    ensures
        !path.has_root(),
        path.start_parts() == Seq::<PartView>::empty(),
        components(path) == segment_parts(names(path.bytes, path.syntax, false)),
{
    lemma_layout(path);
    if path.bytes.len() > 0 {
        let first = first_field(path.bytes, path.syntax, false);
        lemma_fields_from_first(path.bytes, path.syntax, false);
        lemma_dot_first(path.bytes, path.syntax);
        assert(first[0] == path.bytes[0]);
        assert(!separators(path.syntax, false)(first[0]));
    }
    assert(!path.has_leading_separator());
    assert(path.start_parts() =~= Seq::empty());
    assert(components(path) =~= segment_parts(names(path.bytes, path.syntax, false)));
}

/// The part of a path behind no components is the path. Behind its first `n`
/// ones stand the others, where `n` goes beyond a prefix. This needs that what
/// is left is not read as if it began with a prefix of its own, and that `/`
/// separates.
pub proof fn law_tail_components(path: PathView, n: nat)
    requires
        n <= components(path).len(),
        n == 0 || (n > path.prefix_parts().len() && !path.is_verbatim() && tail(
            path,
            n,
        ).prefix() is None),
    ensures
        components(tail(path, n)) == components(path).skip(n as int),
        n > 0 ==> !tail(path, n).has_root(),
        n > 0 ==> tail(path, n).start_parts() == Seq::<PartView>::empty(),
{
    if n == 0 {
        lemma_tail_of_none(path);
        assert(components(path).skip(0) =~= components(path));
    } else {
        let passed = n - path.prefix_parts().len() - path.start_parts().len();
        let all = names(path.inner(), path.syntax, false);
        assert(path.name_parts() == segment_parts(all));
        assert(passed >= 0);
        lemma_behind_names(path, passed as nat);
        lemma_named_components(tail(path, n));
        assert(segment_parts(all).skip(passed) =~= segment_parts(all.skip(passed)));
        assert(components(path).skip(n as int) =~= segment_parts(all).skip(passed));
    }
}

/// What is joined onto the path does not change how its beginning is read, and
/// is read as it is elsewhere. In the syntax of Windows this leaves out the
/// verbatim forms, in which `/`, `.` and `..` are names that joining reads in
/// another way, and beginnings of which more could make another prefix, such as
/// `\\server`.
pub open spec fn is_settled(path: PathView) -> bool {
    match path.prefix() {
        Some(p) => !p.is_verbatim() && !(p is DeviceNs && p.size() == 4 && path.bytes.len() == 4),
        None => path.syntax is Windows ==> !has_two_slashes(path.bytes),
    }
}

/// The part is read in the base as it stands: it has no prefix of its own, and
/// the base is settled. An empty base changes nothing.
pub open spec fn fits(base: PathView, part: PathView) -> bool {
    base.syntax == part.syntax && (base.bytes.len() == 0 || (is_settled(base)
        && part.prefix() is None))
}

/// In the syntax of Unix every part fits.
pub proof fn law_unix_fits(base: PathView, part: PathView)
    requires
        base.syntax is Unix,
        part.syntax is Unix,
    ensures
        fits(base, part),
{
}

/// Components without `.`.
pub open spec fn without_dots(parts: Seq<PartView>) -> Seq<PartView> {
    parts.filter(|p: PartView| p != PartView::Segment(seq![DOT]))
}

/// The components of a relative path without `.` are its names.
pub proof fn lemma_relative_names(path: PathView)
    requires
        path.prefix() is None,
        !path.has_root(),
    ensures
        without_dots(components(path)) == segment_parts(names(path.bytes, path.syntax, false)),
{
    let pred = |p: PartView| p != PartView::Segment(seq![DOT]);
    let all = names(path.bytes, path.syntax, false);
    let parts = segment_parts(all);
    lemma_layout(path);
    lemma_names_are_names(path.bytes, path.syntax, false);
    assert forall|i: int| 0 <= i < parts.len() implies pred(#[trigger] parts[i]) by {
        assert(parts[i] == PartView::Segment(all[i]));
    }
    lemma_filter_all(parts, pred);
    if begins_with_dot(path.body(), path.syntax) {
        let dot = PartView::Segment(seq![DOT]);
        assert(components(path) =~= seq![dot] + parts);
        parts.lemma_filter_prepend(dot, pred);
    } else {
        assert(components(path) =~= parts);
    }
}

proof fn lemma_filter_all<A>(s: Seq<A>, pred: spec_fn(A) -> bool)
    requires
        forall|i: int| 0 <= i < s.len() ==> pred(#[trigger] s[i]),
    ensures
        s.filter(pred) == s,
    decreases s.len(),
{
    reveal(Seq::filter);
    if s.len() > 0 {
        assert forall|i: int| 0 <= i < s.drop_last().len() implies pred(
            #[trigger] s.drop_last()[i],
        ) by {
            assert(s.drop_last()[i] == s[i]);
        }
        lemma_filter_all(s.drop_last(), pred);
        assert(s.drop_last().push(s.last()) =~= s);
    } else {
        assert(s.filter(pred) =~= s);
    }
}

/// A relative part that fits leaves the prefix of the base as it is.
#[verifier::rlimit(30)]
pub proof fn lemma_joined_prefix(base: PathView, part: PathView)
    requires
        fits(base, part),
        base.bytes.len() > 0,
        !part.has_root(),
    ensures
        join(base, part).prefix() == base.prefix(),
        base.prefix() is Some && base.body().len() == 0 ==> (needs_separator(base) <==> !(
        base.prefix()->0 is Disk)),
{
    let whole = join(base, part);
    lemma_layout(base);
    lemma_layout(part);
    if base.syntax is Windows {
        let a = base.bytes;
        let b = whole.bytes;
        lemma_prefix_size(a);
        lemma_prefix_end(a);
        match base.prefix() {
            Some(p) => {
                let m = p.size() as int;
                assert(a.take(m) =~= b.take(m));
                assert(base.body().len() == a.len() - m);
                if m < a.len() {
                    assert(b[m] == a[m]);
                }
                lemma_prefix_stays(a, b);
            },
            None => {
                lemma_drive_or_none(a);
                lemma_drive_or_none(b);
                assert(b[0] == a[0]);
                if a.len() > 1 {
                    assert(b[1] == a[1]);
                } else if part.bytes.len() > 0 {
                    assert(!is_slash(part.bytes[0]));
                    assert(b.len() > 1);
                    assert(is_slash(a[0]) ==> b[1] == part.bytes[0]);
                    assert(!is_slash(a[0]) ==> b[1] == BACKSLASH);
                }
            },
        }
    }
}

/// The components of a joined path, where the part fits. Onto an empty base the
/// part is joined as it stands. A part with a root directory leaves the prefix of
/// the base. Otherwise the components of the base are followed by those of the
/// part; a `.` at the start of the part adds nothing.
pub proof fn law_join_components(base: PathView, part: PathView)
    requires
        fits(base, part),
    ensures
        base.bytes.len() == 0 ==> join(base, part) == part,
        base.bytes.len() > 0 && part.has_root() ==> components(join(base, part))
            == base.prefix_parts() + components(part),
        base.bytes.len() > 0 && !part.has_root() ==> components(join(base, part)) == components(
            base,
        ) + without_dots(components(part)),
{
    let whole = join(base, part);
    lemma_layout(base);
    lemma_layout(part);
    assert(PathView { syntax: base.syntax, ..part } == part);
    if base.bytes.len() == 0 {
        assert(base.prefix() is None) by {
            lemma_prefix_size(base.bytes);
        }
        assert(base.bytes.take(0) + part.bytes =~= part.bytes);
        assert(base.bytes + part.bytes =~= part.bytes);
        assert(whole =~= part);
    } else if part.has_root() {
        lemma_join_rooted(base, part);
    } else {
        lemma_join_relative(base, part);
    }
}

proof fn lemma_join_rooted(base: PathView, part: PathView)
    requires
        fits(base, part),
        base.bytes.len() > 0,
        part.has_root(),
    ensures
        components(join(base, part)) == base.prefix_parts() + components(part),
{
    let whole = join(base, part);
    lemma_layout(base);
    lemma_layout(part);
    assert(PathView { syntax: base.syntax, ..part } == part);
    if base.prefix() is None {
        assert(base.bytes.take(0) + part.bytes =~= part.bytes);
        assert(whole =~= part);
        assert(base.prefix_parts() + components(part) =~= components(part));
    } else {
        let m = base.prefix_size() as int;
        assert(whole.bytes == base.bytes.take(m) + part.bytes);
        assert(base.bytes.take(m) =~= whole.bytes.take(m));
        assert(whole.bytes[m] == part.bytes[0]);
        lemma_prefix_stays(base.bytes, whole.bytes);
        assert(whole.body() =~= part.bytes);
        assert(components(whole) =~= base.prefix_parts() + components(part));
    }
}

/// A relative part that fits adds its names to those of the base, and leaves
/// what stands before them.
#[verifier::rlimit(30)]
pub proof fn lemma_joined_parts(base: PathView, part: PathView)
    requires
        fits(base, part),
        base.bytes.len() > 0,
        !part.has_root(),
    ensures
        join(base, part).start_parts() == base.start_parts(),
        names(join(base, part).inner(), base.syntax, false) == names(
            base.inner(),
            base.syntax,
            false,
        ) + names(part.bytes, base.syntax, false),
{
    let whole = join(base, part);
    let syntax = base.syntax;
    let c = main_separator(syntax);
    let body = base.body();
    let inner = base.inner();
    lemma_layout(base);
    lemma_layout(part);
    lemma_joined_prefix(base, part);
    lemma_no_names(syntax, false);
    assert(PathView { syntax: base.syntax, ..part } == part);
    if body.len() == 0 {
        if needs_separator(base) {
            assert(whole.body() =~= seq![c] + part.bytes);
        } else {
            assert(whole.body() =~= part.bytes);
        }
        assert(whole.inner() =~= part.bytes);
        assert(inner =~= Seq::empty());
    } else {
        assert(body.last() == base.bytes.last());
        if needs_separator(base) {
            assert(whole.body() =~= body.push(c) + part.bytes);
            assert(whole.inner() =~= inner.push(c) + part.bytes);
            lemma_names_concat(inner, c, part.bytes, syntax, false);
        } else {
            assert(whole.body() =~= body + part.bytes);
            assert(whole.inner() =~= inner + part.bytes);
            lemma_names_behind_separator(inner, part.bytes, syntax);
        }
        assert(whole.body()[0] == body[0]);
        if body.len() > 1 {
            assert(whole.body()[1] == body[1]);
        }
    }
    assert(names(whole.inner(), syntax, false) =~= names(inner, syntax, false) + names(
        part.bytes,
        syntax,
        false,
    ));
    assert(whole.start_parts() =~= base.start_parts());
}

/// Behind a separator, or behind nothing, a text adds its names.
proof fn lemma_names_behind_separator(front: Seq<u8>, text: Seq<u8>, syntax: Syntax)
    requires
        front.len() > 0 ==> is_separator(syntax, front.last()),
    ensures
        names(front + text, syntax, false) == names(front, syntax, false) + names(
            text,
            syntax,
            false,
        ),
{
    lemma_no_names(syntax, false);
    if front.len() == 0 {
        assert(front =~= Seq::empty());
        assert(front + text =~= text);
    } else {
        let c = front.last();
        let before = front.drop_last();
        assert(front =~= before.push(c) + Seq::<u8>::empty());
        assert(front + text =~= before.push(c) + text);
        lemma_names_concat(before, c, text, syntax, false);
        lemma_names_concat(before, c, Seq::empty(), syntax, false);
    }
    assert(names(front + text, syntax, false) =~= names(front, syntax, false) + names(
        text,
        syntax,
        false,
    ));
}

proof fn lemma_join_relative(base: PathView, part: PathView)
    requires
        fits(base, part),
        base.bytes.len() > 0,
        !part.has_root(),
    ensures
        components(join(base, part)) == components(base) + without_dots(components(part)),
{
    let whole = join(base, part);
    lemma_joined_prefix(base, part);
    lemma_joined_parts(base, part);
    lemma_relative_names(part);
    let added = segment_parts(names(part.bytes, base.syntax, false));
    assert(whole.name_parts() =~= base.name_parts() + added);
    assert(whole.prefix_parts() == base.prefix_parts());
    let front = base.prefix_parts() + base.start_parts();
    assert(front + (base.name_parts() + added) =~= (front + base.name_parts()) + added);
}

/// Whether a path has a root directory or is absolute, and which prefix it has,
/// shows in its components.
pub proof fn law_same_path(a: PathView, b: PathView)
    requires
        same_path(a, b),
    ensures
        a.prefix() == b.prefix(),
        a.has_root() == b.has_root(),
        is_absolute(a) == is_absolute(b),
        a.bytes.len() == 0 <==> b.bytes.len() == 0,
{
    law_empty_path(a);
    law_empty_path(b);
    lemma_root_shows(a);
    lemma_root_shows(b);
}

/// The prefix and the root directory in the components.
proof fn lemma_root_shows(path: PathView)
    ensures
        ({
            let parts = components(path);
            &&& path.prefix() == (if parts.len() > 0 && parts[0] is Prefix {
                Some(parts[0]->Prefix_0)
            } else {
                None
            })
            &&& path.has_root() == (match path.prefix() {
                Some(p) => !(p is Disk) || (parts.len() > 1 && parts[1] is Root),
                None => parts.len() > 0 && parts[0] is Root,
            })
        }),
{
    lemma_layout(path);
}

/// The same part, written in another way, fits too, and joined onto the base it
/// gives the same path.
pub proof fn law_join_same(base: PathView, a: PathView, b: PathView)
    requires
        same_path(a, b),
        fits(base, a),
    ensures
        fits(base, b),
        same_path(join(base, a), join(base, b)),
{
    law_same_path(a, b);
    law_join_components(base, a);
    law_join_components(base, b);
}

/// A part without a root directory that fits, joined onto a base, lies below
/// the base.
pub proof fn law_join_starts_with(base: PathView, part: PathView)
    requires
        fits(base, part),
        !part.has_root(),
    ensures
        starts_with(join(base, part), base),
{
    law_join_components(base, part);
    law_empty_path(base);
    if base.bytes.len() == 0 {
        assert(components(base) =~= Seq::empty());
    }
    assert(components(join(base, part)).take(components(base).len() as int) =~= components(base));
}

/// What is below a base, joined onto it, is the path again, if it fits.
#[verifier::rlimit(30)]
pub proof fn law_join_strip_prefix(path: PathView, base: PathView)
    requires
        starts_with(path, base),
        fits(base, strip_prefix(path, base)->0),
    ensures
        strip_prefix(path, base) is Some,
        same_path(join(base, strip_prefix(path, base)->0), path),
{
    let n = components(base).len();
    let rest = strip_prefix(path, base)->0;
    let prefixed = path.prefix_parts().len();
    law_join_components(base, rest);
    law_empty_path(base);
    lemma_layout(path);
    lemma_layout(base);
    lemma_root_shows(path);
    lemma_root_shows(base);
    if n == 0 {
        lemma_tail_of_none(path);
    } else {
        assert(components(base)[0] == components(path)[0]) by {
            assert(components(path).take(n as int)[0] == components(path)[0]);
        }
        assert(base.prefix() == path.prefix());
        if n == prefixed {
            lemma_strip_drive(path, base);
        } else {
            law_tail_components(path, n);
            lemma_named_rest(path, n);
            assert(components(base) + components(path).skip(n as int) =~= components(path));
        }
    }
}

/// Behind the first component that is no prefix, no component is `.`.
proof fn lemma_named_rest(path: PathView, n: nat)
    requires
        path.prefix_parts().len() < n <= components(path).len(),
        !path.is_verbatim(),
    ensures
        without_dots(components(path).skip(n as int)) == components(path).skip(n as int),
{
    let pred = |p: PartView| p != PartView::Segment(seq![DOT]);
    let parts = components(path).skip(n as int);
    let before = path.prefix_parts().len() + path.start_parts().len();
    let all = names(path.inner(), path.syntax, false);
    lemma_names_are_names(path.inner(), path.syntax, false);
    assert forall|i: int| 0 <= i < parts.len() implies pred(#[trigger] parts[i]) by {
        let k = n + i - before;
        assert(parts[i] == path.name_parts()[k]);
        assert(path.name_parts()[k] == PartView::Segment(all[k]));
    }
    lemma_filter_all(parts, pred);
}

/// What is behind a drive, joined onto the drive, is the path again.
#[verifier::rlimit(30)]
proof fn lemma_strip_drive(path: PathView, base: PathView)
    requires
        starts_with(path, base),
        base.prefix() == path.prefix(),
        base.prefix() is Some,
        components(base).len() == 1,
        fits(base, tail(path, 1)),
    ensures
        components(join(base, tail(path, 1))) == components(path),
{
    let rest = tail(path, 1);
    lemma_layout(path);
    lemma_layout(base);
    lemma_layout(rest);
    lemma_trimmed_body(path);
    law_join_components(base, rest);
    assert(base.bytes.len() > 0);
    assert(base.start_parts().len() == 0);
    assert(base.prefix()->0 is Disk);
    assert(components(base) =~= base.prefix_parts());
    assert(rest.body() == path.trimmed_body());
    if path.has_leading_separator() {
        assert(rest.body()[0] == path.body()[0]);
        assert(rest.name_parts() =~= path.name_parts());
        assert(rest.start_parts() =~= path.start_parts());
    } else {
        lemma_relative_names(rest);
    }
    assert(components(join(base, rest)) =~= components(path));
}

/// A relative part that fits, joined onto a base that is not empty and stripped
/// of it again, has the components that it had, but for a `.` at its start. This
/// needs that the base is more than a drive, and that what is left is not read
/// as if it began with a prefix.
pub proof fn law_strip_prefix_join(base: PathView, part: PathView)
    requires
        fits(base, part),
        !part.has_root(),
        components(base).len() > base.prefix_parts().len(),
        strip_prefix(join(base, part), base) matches Some(rest) ==> rest.prefix() is None,
    ensures
        strip_prefix(join(base, part), base) is Some,
        components(strip_prefix(join(base, part), base)->0) == without_dots(components(part)),
{
    let whole = join(base, part);
    let n = components(base).len();
    law_empty_path(base);
    law_join_starts_with(base, part);
    law_join_components(base, part);
    lemma_joined_prefix(base, part);
    law_tail_components(whole, n);
    assert(components(whole).skip(n as int) =~= without_dots(components(part)));
}

/// Every path starts with itself.
pub proof fn law_starts_with_reflexive(path: PathView)
    ensures
        starts_with(path, path),
{
}

/// What lies below a path that lies below a base lies below the base.
pub proof fn law_starts_with_transitive(path: PathView, middle: PathView, base: PathView)
    requires
        starts_with(path, middle),
        starts_with(middle, base),
    ensures
        starts_with(path, base),
{
    let a = components(path);
    let b = components(middle);
    let c = components(base);
    assert(a.take(b.len() as int).take(c.len() as int) =~= a.take(c.len() as int));
}

/// Two paths that start with each other are the same path.
pub proof fn law_starts_with_antisymmetric(a: PathView, b: PathView)
    requires
        starts_with(a, b),
        starts_with(b, a),
    ensures
        same_path(a, b),
{
    assert(components(a) =~= components(b));
}

} // verus!
