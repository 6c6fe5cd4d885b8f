//! What paths mean, byte by byte: which components a path has, which path lies
//! below which, and what joining and stripping leave of the bytes.
use crate::fields::{
    free_of, lemma_first_field, lemma_last_field, lemma_split_fields, split_on,
};
use crate::path::{
    components, first_field, fits, is_absolute, is_name, is_settled, join, last_field,
    law_empty_path, law_join_components, law_join_starts_with, law_same_path, lemma_behind_names,
    lemma_dot_first, lemma_fields_from_first, lemma_joined_parts, lemma_joined_prefix,
    lemma_layout, lemma_named_components, lemma_names_concat, lemma_no_names,
    lemma_relative_names, names, push_parts, same_path, segment_parts, separators, skip_names,
    starts_with, strip_prefix, tail, trim_end, trim_start, without_dots, without_first,
    without_last, written, PartView, PathView, Syntax,
};
use crate::prefix::{
    field_at, has_two_slashes, lemma_drive_or_none, lemma_field_end_is, lemma_prefix_end,
    lemma_prefix_size, lemma_prefix_stays, lemma_verbatim_stays, windows_prefix, PrefixView,
};
use vstd::prelude::*;

verus! {

/// A path in the syntax of Unix.
pub open spec fn unix(bytes: Seq<u8>) -> PathView {
    PathView { syntax: Syntax::Unix, bytes }
}

/// A path in the syntax of Windows.
pub open spec fn windows(bytes: Seq<u8>) -> PathView {
    PathView { syntax: Syntax::Windows, bytes }
}

/// The byte is `/` or, in the syntax of Windows, `\`.
pub open spec fn cuts(syntax: Syntax, b: u8) -> bool {
    b == 47u8 || (syntax == Syntax::Windows && b == 92u8)
}

/// A name: it is not empty, not `.`, and nothing cuts it.
pub open spec fn is_plain_name(syntax: Syntax, name: Seq<u8>) -> bool {
    &&& name.len() > 0
    &&& name != seq![46u8]
    &&& forall|i: int| 0 <= i < name.len() ==> !cuts(syntax, #[trigger] name[i])
}

// ---------------------------------------------------------------------------
// Components
// ---------------------------------------------------------------------------

/// A text without separators has one field.
proof fn lemma_one_name(name: Seq<u8>, syntax: Syntax)
    requires
        is_plain_name(syntax, name),
    ensures
        first_field(name, syntax, false) == name,
        names(name, syntax, false) == seq![name],
        is_name(name, false),
{
    let sep = separators(syntax, false);
    let first = first_field(name, syntax, false);
    lemma_first_field(name, sep);
    if first.len() < name.len() {
        assert(cuts(syntax, name[first.len() as int]));
    }
    assert(first =~= name);
    lemma_fields_from_first(name, syntax, false);
    lemma_no_names(syntax, false);
    assert(names(name, syntax, false) =~= seq![name]);
}

/// A name that is not read as a drive is a path with one component.
proof fn lemma_name_alone(path: PathView)
    requires
        is_plain_name(path.syntax, path.bytes),
        path.prefix() is None,
    ensures
        components(path) == seq![PartView::Segment(path.bytes)],
        without_dots(components(path)) == seq![PartView::Segment(path.bytes)],
        !path.has_root(),
{
    lemma_one_name(path.bytes, path.syntax);
    lemma_named_components(path);
    lemma_relative_names(path);
    assert(segment_parts(seq![path.bytes]) =~= seq![PartView::Segment(path.bytes)]);
}

/// A separator behind a path adds no component.
proof fn lemma_trailing_separator(path: PathView, c: u8)
    requires
        cuts(path.syntax, c),
        path.bytes.len() > 0,
        is_settled(path),
        path.syntax is Windows ==> !cuts(path.syntax, path.bytes.last()) && !(
        path.prefix() matches Some(p) && p is Disk && path.bytes.len() == 2),
    ensures
        ({
            let longer = PathView { bytes: path.bytes.push(c), ..path };
            &&& longer.prefix() == path.prefix()
            &&& is_settled(longer)
            &&& longer.start_parts() == path.start_parts()
            &&& names(longer.inner(), path.syntax, false) == names(
                path.inner(),
                path.syntax,
                false,
            )
            &&& components(longer) == components(path)
        }),
{
    let longer = PathView { bytes: path.bytes.push(c), ..path };
    let a = path.bytes;
    let b = longer.bytes;
    lemma_layout(path);
    if path.syntax is Windows {
        lemma_prefix_size(a);
        match path.prefix() {
            Some(p) => {
                let m = p.size() as int;
                assert(a.take(m) =~= b.take(m));
                if m < a.len() {
                    assert(b[m] == a[m]);
                }
                lemma_prefix_stays(a, b);
            },
            None => {
                lemma_drive_or_none(a);
                lemma_drive_or_none(b);
                assert(b[0] == a[0]);
                if a.len() > 1 {
                    assert(b[1] == a[1]);
                } else {
                    assert(b[1] == c);
                }
            },
        }
    }
    assert(longer.prefix() == path.prefix());
    lemma_layout(longer);
    let body = path.body();
    let inner = path.inner();
    assert(longer.body() =~= body.push(c));
    lemma_no_names(path.syntax, false);
    if body.len() == 0 {
        assert(inner =~= Seq::empty());
        assert(longer.inner() =~= Seq::empty());
    } else {
        assert(longer.body()[0] == body[0]);
        if body.len() > 1 {
            assert(longer.body()[1] == body[1]);
        }
        assert(longer.inner() =~= inner.push(c) + Seq::<u8>::empty());
        lemma_names_concat(inner, c, Seq::empty(), path.syntax, false);
    }
    assert(names(longer.inner(), path.syntax, false) =~= names(inner, path.syntax, false));
    assert(longer.start_parts() =~= path.start_parts());
}

/// A separator and a name behind a path add one component.
proof fn lemma_append_name(base: PathView, c: u8, name: Seq<u8>)
    requires
        cuts(base.syntax, c),
        base.bytes.len() > 0,
        is_settled(base),
        base.syntax is Windows ==> !cuts(base.syntax, base.bytes.last()) && !(
        base.prefix() matches Some(p) && p is Disk && base.bytes.len() == 2),
        is_plain_name(base.syntax, name),
        (PathView { bytes: name, ..base }).prefix() is None,
    ensures
        components(PathView { bytes: base.bytes.push(c) + name, ..base }) == components(base).push(
            PartView::Segment(name),
        ),
{
    let part = PathView { bytes: name, ..base };
    let longer = PathView { bytes: base.bytes.push(c), ..base };
    lemma_name_alone(part);
    lemma_layout(part);
    lemma_trailing_separator(base, c);
    law_join_components(longer, part);
    assert(PathView { syntax: longer.syntax, ..part } == part);
    assert(join(longer, part).bytes =~= base.bytes.push(c) + name);
    assert(components(base) + seq![PartView::Segment(name)] =~= components(base).push(
        PartView::Segment(name),
    ));
}

/// Which components a path has in the syntax of Unix. The byte 47 alone
/// separates, and 46 alone counts only at the beginning. Every path that is not
/// one of the first four is longer by a name, by a separator, or by a separator
/// and a dot.
pub proof fn law_unix_components(text: Seq<u8>, name: Seq<u8>)
    requires
        name.len() > 0,
        !name.contains(47u8),
        name != seq![46u8],
    ensures
        components(unix(Seq::empty())) == Seq::<PartView>::empty(),
        components(unix(seq![47u8])) == seq![PartView::Root],
        components(unix(seq![46u8])) == seq![PartView::Segment(seq![46u8])],
        components(unix(name)) == seq![PartView::Segment(name)],
        components(unix(seq![47u8] + name)) == seq![PartView::Root, PartView::Segment(name)],
        text.len() > 0 ==> {
            &&& components(unix(text.push(47u8) + name)) == components(unix(text)).push(
                PartView::Segment(name),
            )
            &&& components(unix(text.push(47u8))) == components(unix(text))
            &&& components(unix(text.push(47u8).push(46u8))) == components(unix(text))
        },
{
    let part = unix(name);
    assert forall|i: int| 0 <= i < name.len() implies !cuts(Syntax::Unix, #[trigger] name[i]) by {
        assert(name.contains(name[i]));
    }
    lemma_name_alone(part);
    law_empty_path(unix(Seq::empty()));
    assert(components(unix(Seq::empty())) =~= Seq::<PartView>::empty());
    lemma_no_names(Syntax::Unix, false);
    let root = unix(seq![47u8]);
    lemma_layout(root);
    assert(root.inner() =~= Seq::empty());
    assert(components(root) =~= seq![PartView::Root]);
    let dot = unix(seq![46u8]);
    lemma_layout(dot);
    lemma_relative_names(dot);
    lemma_dot_first(dot.bytes, Syntax::Unix);
    lemma_fields_from_first(dot.bytes, Syntax::Unix, false);
    assert(names(dot.bytes, Syntax::Unix, false) =~= Seq::empty());
    assert(components(dot) =~= seq![PartView::Segment(seq![46u8])]);
    law_join_components(root, part);
    assert(join(root, part).bytes =~= seq![47u8] + name);
    assert(components(unix(seq![47u8] + name)) =~= seq![PartView::Root, PartView::Segment(name)]);
    if text.len() > 0 {
        let base = unix(text);
        let longer = unix(text.push(47u8));
        lemma_trailing_separator(base, 47u8);
        lemma_append_name(base, 47u8, name);
        assert(longer == PathView { bytes: text.push(47u8), ..base });
        assert(unix(text.push(47u8) + name) == PathView { bytes: text.push(47u8) + name, ..base });
        law_join_components(longer, dot);
        assert(join(longer, dot).bytes =~= text.push(47u8).push(46u8));
        assert(segment_parts(Seq::empty()) =~= Seq::empty());
        assert(components(longer) + Seq::<PartView>::empty() =~= components(longer));
    }
}

/// A path in the syntax of Windows, made longer by a separator of either kind
/// and a name, has one component more. This needs that the path is settled, does
/// not end with a separator and is more than a drive, and that the name is not
/// read as a drive.
pub proof fn law_windows_components(text: Seq<u8>, c: u8, name: Seq<u8>)
    requires
        c == 47u8 || c == 92u8,
        name.len() > 0,
        !name.contains(47u8),
        !name.contains(92u8),
        name != seq![46u8],
        name.len() > 1 ==> name[1] != 58u8,
        text.len() > 0,
        is_settled(windows(text)),
        text.last() != 47u8 && text.last() != 92u8,
        text.len() == 2 ==> text[1] != 58u8,
    ensures
        components(windows(name)) == seq![PartView::Segment(name)],
        components(windows(text.push(c) + name)) == components(windows(text)).push(
            PartView::Segment(name),
        ),
        components(windows(text.push(c))) == components(windows(text)),
{
    let part = windows(name);
    let base = windows(text);
    assert forall|i: int| 0 <= i < name.len() implies !cuts(
        Syntax::Windows,
        #[trigger] name[i],
    ) by {
        assert(name.contains(name[i]));
    }
    assert(part.prefix() is None) by {
        lemma_drive_or_none(name);
    }
    assert(!(base.prefix() matches Some(p) && p is Disk && text.len() == 2)) by {
        lemma_drive_or_none(text);
        assert(text.len() == 2 ==> text.last() == text[1]);
    }
    lemma_name_alone(part);
    lemma_trailing_separator(base, c);
    lemma_append_name(base, c, name);
    assert(windows(text.push(c)) == PathView { bytes: text.push(c), ..base });
    assert(windows(text.push(c) + name) == PathView { bytes: text.push(c) + name, ..base });
}

/// One path lies below another if and only if it begins with all of its
/// components, in the same syntax; two are the same if they have the same ones.
pub proof fn law_below_by_components(path: PathView, base: PathView)
    ensures
        starts_with(path, base) <==> path.syntax == base.syntax && components(base).len()
            <= components(path).len() && forall|i: int|
            0 <= i < components(base).len() ==> components(path)[i] == #[trigger] components(
                base,
            )[i],
        same_path(path, base) <==> path.syntax == base.syntax && components(base).len()
            == components(path).len() && forall|i: int|
            0 <= i < components(base).len() ==> components(path)[i] == #[trigger] components(
                base,
            )[i],
{
    let a = components(path);
    let b = components(base);
    if b.len() <= a.len() && (forall|i: int| 0 <= i < b.len() ==> a[i] == #[trigger] b[i]) {
        assert(a.take(b.len() as int) =~= b);
        if a.len() == b.len() {
            assert(a =~= b);
        }
    }
    if b.is_prefix_of(a) {
        assert forall|i: int| 0 <= i < b.len() implies a[i] == #[trigger] b[i] by {
            assert(a.take(b.len() as int)[i] == b[i]);
        }
    }
}

/// Of two names in one directory, neither lies below the other unless they are
/// the same, and both lie below the directory. So a directory beside another one
/// is not below it, however their names begin.
pub proof fn law_unix_siblings(text: Seq<u8>, a: Seq<u8>, b: Seq<u8>, more: Seq<u8>)
    requires
        a.len() > 0,
        !a.contains(47u8),
        a != seq![46u8],
        b.len() > 0,
        !b.contains(47u8),
        b != seq![46u8],
        more.len() > 0,
        !more.contains(47u8),
        more != seq![46u8],
    ensures
        starts_with(unix(seq![47u8] + b), unix(seq![47u8] + a)) <==> a == b,
        starts_with(unix(b), unix(a)) <==> a == b,
        text.len() > 0 ==> {
            let at = unix(text.push(47u8) + a);
            let beside = unix(text.push(47u8) + b);
            let below = unix((text.push(47u8) + b).push(47u8) + more);
            &&& starts_with(beside, at) <==> a == b
            &&& starts_with(below, at) <==> a == b
            &&& starts_with(at, unix(text))
            &&& !starts_with(unix(text), at)
            &&& !same_path(unix(text), at)
        },
{
    law_unix_components(text, a);
    law_unix_components(text, b);
    law_unix_components(text.push(47u8) + b, more);
    let base = components(unix(text));
    law_below_by_components(unix(seq![47u8] + b), unix(seq![47u8] + a));
    law_below_by_components(unix(b), unix(a));
    assert(components(unix(seq![47u8] + a))[1] == PartView::Segment(a));
    assert(components(unix(seq![47u8] + b))[1] == PartView::Segment(b));
    assert(components(unix(a))[0] == PartView::Segment(a));
    assert(components(unix(b))[0] == PartView::Segment(b));
    if text.len() > 0 {
        let at = unix(text.push(47u8) + a);
        let beside = unix(text.push(47u8) + b);
        let below = unix((text.push(47u8) + b).push(47u8) + more);
        law_below_by_components(beside, at);
        law_below_by_components(below, at);
        law_below_by_components(at, unix(text));
        law_below_by_components(unix(text), at);
        assert(components(at)[base.len() as int] == PartView::Segment(a));
        assert(components(beside)[base.len() as int] == PartView::Segment(b));
        assert(components(below)[base.len() as int] == PartView::Segment(b));
    }
}

/// Whether a path is absolute: in the syntax of Unix, if it begins with the byte
/// 47; in that of Windows, if it has a prefix, and a root directory unless the
/// prefix is verbatim.
pub proof fn law_absolute(path: PathView)
    ensures
        path.syntax == Syntax::Unix ==> (is_absolute(path) <==> path.bytes.len() > 0
            && path.bytes[0] == 47u8),
        path.syntax == Syntax::Windows ==> (is_absolute(path) <==> ({
            let parts = components(path);
            &&& parts.len() > 0
            &&& parts[0] is Prefix
            &&& match parts[0]->Prefix_0 {
                PrefixView::Verbatim(_) => true,
                PrefixView::VerbatimUnc(_, _) => true,
                PrefixView::VerbatimDisk(_) => true,
                _ => parts.len() > 1 && parts[1] == PartView::Root,
            }
        })),
{
    lemma_layout(path);
}

// ---------------------------------------------------------------------------
// Joining
// ---------------------------------------------------------------------------

/// What joining does to the bytes in the syntax of Unix: a part that begins with
/// the byte 47 stands alone, and otherwise one such byte stands between the two,
/// unless the base is empty.
pub proof fn law_unix_join_bytes(base: Seq<u8>, part: Seq<u8>)
    ensures
        ({
            let r = join(unix(base), unix(part));
            &&& r.syntax == Syntax::Unix
            &&& part.len() > 0 && part[0] == 47u8 ==> r.bytes == part
            &&& !(part.len() > 0 && part[0] == 47u8) ==> {
                &&& base.len() == 0 ==> r.bytes == part
                &&& base.len() > 0 && base.last() == 47u8 ==> r.bytes == base + part
                &&& base.len() > 0 && base.last() != 47u8 ==> r.bytes == base.push(47u8) + part
            }
        }),
{
    lemma_layout(unix(part));
    lemma_layout(unix(base));
    assert(PathView { syntax: Syntax::Unix, ..unix(part) } == unix(part));
    assert(base.len() == 0 ==> base + part =~= part);
}

/// What joining does to the bytes in the syntax of Windows, where the base is
/// not verbatim: a part with a prefix stands alone. One that begins with a
/// separator leaves the prefix of the base. Otherwise the byte 92 stands between
/// the two, unless the base is empty, ends with a separator or is a drive.
pub proof fn law_windows_join_bytes(base: Seq<u8>, part: Seq<u8>)
    requires
        !windows(base).is_verbatim(),
    ensures
        ({
            let r = join(windows(base), windows(part));
            let rooted = part.len() > 0 && (part[0] == 47u8 || part[0] == 92u8);
            let ended = base.len() > 0 && (base.last() == 47u8 || base.last() == 92u8);
            let is_drive = base.len() == 2 && base[1] == 58u8 && (65u8 <= base[0] <= 90u8 || 97u8
                <= base[0] <= 122u8);
            &&& r.syntax == Syntax::Windows
            &&& windows_prefix(part) is Some ==> r.bytes == part
            &&& windows_prefix(part) is None && rooted ==> r.bytes == (match windows_prefix(base) {
                Some(p) => base.take(p.size() as int) + part,
                None => part,
            })
            &&& windows_prefix(part) is None && !rooted ==> r.bytes == (if base.len() == 0 {
                part
            } else if ended || is_drive {
                base + part
            } else {
                base.push(92u8) + part
            })
        }),
{
    lemma_layout(windows(part));
    lemma_layout(windows(base));
    lemma_drive_or_none(base);
    lemma_prefix_size(base);
    lemma_prefix_end(base);
    assert(PathView { syntax: Syntax::Windows, ..windows(part) } == windows(part));
    assert(base.len() == 0 ==> base + part =~= part);
    assert(base.take(0) + part =~= part);
    if base.len() == 2 {
        assert(base.last() == base[1]);
        lemma_two_bytes(base);
    }
}

/// A prefix of two bytes is a drive.
proof fn lemma_two_bytes(bytes: Seq<u8>)
    requires
        bytes.len() == 2,
    ensures
        windows_prefix(bytes) is Some ==> windows_prefix(bytes)->0 is Disk,
        windows_prefix(bytes) is Some <==> bytes[1] == 58u8 && (65u8 <= bytes[0] <= 90u8 || 97u8
            <= bytes[0] <= 122u8),
{
    reveal(windows_prefix);
    lemma_field_end_is(bytes, 2, 2, false);
}

// ---------------------------------------------------------------------------
// Stripping
// ---------------------------------------------------------------------------

/// Names are passed up to a separator, and what stands behind it is left.
proof fn lemma_skip_to(a: Seq<u8>, c: u8, rest: Seq<u8>, syntax: Syntax)
    requires
        cuts(syntax, c),
        rest.len() > 0,
        is_name(first_field(rest, syntax, false), false),
    ensures
        trim_start(
            skip_names(a.push(c) + rest, names(a, syntax, false).len(), syntax, false),
            syntax,
            false,
        ) == rest,
    decreases a.len(),
{
    let sep = separators(syntax, false);
    let text = a.push(c) + rest;
    let n = names(a, syntax, false).len();
    let first = first_field(a, syntax, false);
    let found = first_field(text, syntax, false);
    lemma_fields_from_first(a, syntax, false);
    lemma_fields_from_first(text, syntax, false);
    lemma_no_names(syntax, false);
    assert(sep(c));
    assert(found.len() == first.len()) by {
        if found.len() < first.len() {
            assert(first[found.len() as int] == text[found.len() as int]);
        }
        if first.len() < found.len() {
            assert(found[first.len() as int] == text[first.len() as int]);
        }
    }
    assert(found =~= first);
    let after = without_first(text, syntax, false);
    if first.len() < a.len() {
        let shorter = without_first(a, syntax, false);
        assert(after =~= shorter.push(c) + rest);
        lemma_skip_to(shorter, c, rest, syntax);
    } else {
        assert(after =~= rest);
        assert(without_first(a, syntax, false) =~= Seq::empty());
        assert(trim_start(rest, syntax, false) == rest);
        assert(skip_names(rest, 0, syntax, false) == rest);
    }
}

/// The text begins and ends with a name.
pub open spec fn is_tidy(syntax: Syntax, text: Seq<u8>) -> bool {
    let n = text.len() as int;
    &&& n > 0
    &&& !cuts(syntax, text[0])
    &&& !cuts(syntax, text[n - 1])
    &&& !(text[0] == 46u8 && (n == 1 || cuts(syntax, text[1])))
    &&& !(text[n - 1] == 46u8 && (n == 1 || cuts(syntax, text[n - 2])))
}

/// The first and the last field of such a text are names.
proof fn lemma_tidy(syntax: Syntax, text: Seq<u8>)
    requires
        is_tidy(syntax, text),
    ensures
        is_name(first_field(text, syntax, false), false),
        is_name(last_field(text, syntax, false), false),
{
    let sep = separators(syntax, false);
    let first = first_field(text, syntax, false);
    let last = last_field(text, syntax, false);
    lemma_dot_first(text, syntax);
    lemma_fields_from_first(text, syntax, false);
    lemma_last_field(text, sep);
    if first.len() == 0 {
        assert(sep(text[0]));
    }
    let n = text.len() - last.len();
    if last.len() == 0 {
        assert(sep(text[n - 1]));
    }
    if last == seq![46u8] {
        assert(last[0] == text[text.len() - 1]);
        if n > 0 {
            assert(sep(text[n - 1]));
        }
    }
}

/// What stands behind a base and a separator.
proof fn lemma_behind_base(base: PathView, c: u8, rest: Seq<u8>)
    requires
        cuts(base.syntax, c),
        base.bytes.len() > 0,
        is_settled(base),
        components(base).len() > base.prefix_parts().len(),
        base.syntax is Windows ==> !cuts(base.syntax, base.bytes.last()) && !(
        base.prefix() matches Some(p) && p is Disk && base.bytes.len() == 2),
        rest.len() > 0,
        is_name(first_field(rest, base.syntax, false), false),
        (PathView { bytes: rest, ..base }).prefix() is None,
    ensures
        ({
            let whole = PathView { bytes: base.bytes.push(c) + rest, ..base };
            &&& starts_with(whole, base)
            &&& strip_prefix(whole, base) == Some(
                PathView { bytes: trim_end(rest, base.syntax, false), ..base },
            )
        }),
{
    let syntax = base.syntax;
    let longer = PathView { bytes: base.bytes.push(c), ..base };
    let part = PathView { bytes: rest, ..base };
    let whole = PathView { bytes: base.bytes.push(c) + rest, ..base };
    let n = components(base).len();
    lemma_trailing_separator(base, c);
    lemma_named_components(part);
    lemma_layout(part);
    lemma_layout(base);
    lemma_layout(longer);
    assert(join(longer, part) =~= whole);
    law_join_components(longer, part);
    law_join_starts_with(longer, part);
    lemma_joined_prefix(longer, part);
    lemma_joined_parts(longer, part);
    assert(starts_with(whole, base));
    let passed = names(base.inner(), syntax, false).len();
    assert(components(base).len() == base.prefix_parts().len() + base.start_parts().len() + passed);
    assert(whole.prefix_parts() == base.prefix_parts());
    assert(tail(whole, n).bytes == whole.behind_names(passed));
    lemma_layout(whole);
    let body = base.body();
    assert(whole.body() =~= body.push(c) + rest);
    lemma_no_names(syntax, false);
    if body.len() == 0 {
        assert(base.inner() =~= Seq::empty());
        assert(whole.inner() =~= rest);
        assert(skip_names(rest, 0, syntax, false) == rest);
        assert(trim_start(rest, syntax, false) == rest);
    } else {
        assert(whole.body()[0] == body[0]);
        assert(whole.inner() =~= base.inner().push(c) + rest);
        lemma_skip_to(base.inner(), c, rest, syntax);
    }
}

/// What stripping leaves of the bytes: what stands behind the base and a
/// separator, just as it is written there. Separators at its end, and a dot
/// behind one, are left away. In the syntax of Windows this needs that the base
/// is settled and does not end with a separator, that it is more than a drive,
/// and that the rest is not read as if it began with a prefix.
pub proof fn law_strip_bytes(base: PathView, c: u8, rest: Seq<u8>)
    requires
        cuts(base.syntax, c),
        base.bytes.len() > 0,
        is_tidy(base.syntax, rest),
        base.syntax == Syntax::Windows ==> {
            &&& is_settled(base)
            &&& components(base).len() > base.prefix_parts().len()
            &&& !cuts(base.syntax, base.bytes.last())
            &&& windows_prefix(rest) is None
            &&& windows_prefix(rest.push(c)) is None
            &&& windows_prefix(rest.push(c).push(46u8)) is None
        },
    ensures
        ({
            let below = base.bytes.push(c) + rest;
            let left = Some(PathView { bytes: rest, ..base });
            &&& strip_prefix(PathView { bytes: below, ..base }, base) == left
            &&& strip_prefix(PathView { bytes: below.push(c), ..base }, base) == left
            &&& strip_prefix(PathView { bytes: below.push(c).push(46u8), ..base }, base) == left
        }),
{
    let syntax = base.syntax;
    let sep = separators(syntax, false);
    let below = base.bytes.push(c) + rest;
    law_empty_path(base);
    lemma_tidy(syntax, rest);
    lemma_layout(base);
    if syntax is Windows && base.prefix() is Some && base.bytes.len() == 2 {
        lemma_two_bytes(base.bytes);
        assert(base.body() =~= Seq::empty());
        lemma_no_names(syntax, false);
        assert(base.name_parts() =~= Seq::empty());
        assert(components(base) =~= base.prefix_parts());
    }
    assert(trim_end(rest, syntax, false) == rest);
    lemma_behind_base(base, c, rest);
    let second = rest.push(c);
    let third = second.push(46u8);
    lemma_fields_from_first(rest, syntax, false);
    lemma_longer_first(rest, c, Seq::empty(), syntax);
    assert(rest.push(c) + Seq::<u8>::empty() =~= second);
    lemma_longer_first(rest, c, seq![46u8], syntax);
    assert(rest.push(c) + seq![46u8] =~= third);
    lemma_trim_one(rest, c, Seq::empty(), syntax);
    lemma_trim_one(rest, c, seq![46u8], syntax);
    lemma_behind_base(base, c, second);
    lemma_behind_base(base, c, third);
    assert(base.bytes.push(c) + second =~= below.push(c));
    assert(base.bytes.push(c) + third =~= below.push(c).push(46u8));
}

/// What stands behind a separator does not change the first field.
proof fn lemma_longer_first(text: Seq<u8>, c: u8, more: Seq<u8>, syntax: Syntax)
    requires
        cuts(syntax, c),
        text.len() > 0,
    ensures
        first_field(text.push(c) + more, syntax, false) == first_field(text, syntax, false),
{
    let sep = separators(syntax, false);
    let longer = text.push(c) + more;
    let a = first_field(text, syntax, false);
    let b = first_field(longer, syntax, false);
    lemma_fields_from_first(text, syntax, false);
    lemma_fields_from_first(longer, syntax, false);
    assert(sep(c));
    if b.len() < a.len() {
        assert(a[b.len() as int] == longer[b.len() as int]);
    }
    if a.len() < b.len() {
        assert(b[a.len() as int] == longer[a.len() as int]);
    }
    assert(a =~= b);
}

/// A last field that is no name is trimmed away.
proof fn lemma_trim_one(text: Seq<u8>, c: u8, last: Seq<u8>, syntax: Syntax)
    requires
        cuts(syntax, c),
        last.len() == 0 || last == seq![46u8],
        text.len() > 0,
        trim_end(text, syntax, false) == text,
    ensures
        trim_end(text.push(c) + last, syntax, false) == text,
{
    let sep = separators(syntax, false);
    let longer = text.push(c) + last;
    let found = last_field(longer, syntax, false);
    lemma_last_field(longer, sep);
    assert(sep(c));
    let n = longer.len() - found.len();
    if found.len() > last.len() {
        assert(found[text.len() - n] == longer[text.len() as int]);
    }
    if found.len() < last.len() {
        assert(sep(longer[n - 1]));
        assert(longer[n - 1] == last[0]);
    }
    assert(found =~= last);
    assert(without_last(longer, syntax, false) =~= text);
}

/// A path stripped of itself, or of the same path, leaves nothing, unless it is
/// a prefix alone. What is not below a base cannot be stripped of it.
pub proof fn law_strip_all(path: PathView, base: PathView)
    ensures
        !starts_with(path, base) ==> strip_prefix(path, base) is None,
        starts_with(path, base) ==> strip_prefix(path, base) is Some,
        same_path(path, base) && components(base).len() > base.prefix_parts().len()
            ==> strip_prefix(path, base) == Some(PathView { bytes: Seq::empty(), ..path }),
{
    if same_path(path, base) && components(base).len() > base.prefix_parts().len() {
        let n = components(path).len();
        law_same_path(path, base);
        let v = path.is_verbatim();
        let all = names(path.inner(), path.syntax, v);
        let passed = all.len();
        assert(n == path.prefix_parts().len() + path.start_parts().len() + passed);
        lemma_behind_names(path, passed);
        let rest = path.behind_names(passed);
        assert(all.skip(passed as int) =~= Seq::empty());
        if rest.len() > 0 {
            lemma_fields_from_first(rest, path.syntax, v);
            assert(names(rest, path.syntax, v).len() > 0);
        }
        assert(rest =~= Seq::empty());
        assert(components(path).take(n as int) =~= components(path));
        assert(tail(path, n) =~= (PathView { bytes: Seq::empty(), ..path }));
    }
}

/// Stripping goes by the components of the base: how the base is written makes no
/// difference.
pub proof fn law_strip_by_components(path: PathView, base: PathView, other: PathView)
    requires
        same_path(base, other),
    ensures
        strip_prefix(path, base) == strip_prefix(path, other),
{
}

/// One text is the other one with a separator behind it, or both are empty.
spec fn is_ended(a: Seq<u8>, c: u8, b: Seq<u8>) -> bool {
    b == a.push(c) || (a.len() == 0 && b.len() == 0)
}

proof fn lemma_ended_rest(a: Seq<u8>, c: u8, b: Seq<u8>, syntax: Syntax)
    requires
        cuts(syntax, c),
        is_ended(a, c, b),
        b.len() > 0,
    ensures
        is_ended(without_first(a, syntax, false), c, without_first(b, syntax, false)),
        first_field(a, syntax, false) == first_field(b, syntax, false),
{
    let sep = separators(syntax, false);
    let none = Seq::<u8>::empty();
    assert(sep(c));
    lemma_fields_from_first(a, syntax, false);
    lemma_fields_from_first(b, syntax, false);
    lemma_no_names(syntax, false);
    if a.len() == 0 {
        assert(a =~= none);
        let first = first_field(b, syntax, false);
        if first.len() > 0 {
            assert(first[0] == b[0]);
        }
        assert(first =~= none);
        assert(without_first(b, syntax, false) =~= none);
    } else {
        lemma_longer_first(a, c, none, syntax);
        assert(a.push(c) + none =~= b);
        let n = first_field(a, syntax, false).len() as int;
        if n < a.len() {
            assert(without_first(b, syntax, false) =~= without_first(a, syntax, false).push(c));
        } else {
            assert(without_first(b, syntax, false) =~= none);
        }
    }
}

proof fn lemma_ended_skip(a: Seq<u8>, c: u8, b: Seq<u8>, n: nat, syntax: Syntax)
    requires
        cuts(syntax, c),
        is_ended(a, c, b),
    ensures
        is_ended(skip_names(a, n, syntax, false), c, skip_names(b, n, syntax, false)),
    decreases b.len(),
{
    if n > 0 && b.len() > 0 {
        lemma_ended_rest(a, c, b, syntax);
        lemma_fields_from_first(b, syntax, false);
        let x = without_first(a, syntax, false);
        let y = without_first(b, syntax, false);
        let m = if is_name(first_field(b, syntax, false), false) { (n - 1) as nat } else { n };
        if a.len() == 0 {
            assert(a =~= Seq::empty());
            lemma_no_names(syntax, false);
            assert(x =~= Seq::empty());
            lemma_ended_skip(x, c, y, m, syntax);
            assert(skip_names(x, m, syntax, false) =~= Seq::empty());
        } else {
            lemma_ended_skip(x, c, y, m, syntax);
        }
    }
}

proof fn lemma_ended_start(a: Seq<u8>, c: u8, b: Seq<u8>, syntax: Syntax)
    requires
        cuts(syntax, c),
        is_ended(a, c, b),
    ensures
        is_ended(trim_start(a, syntax, false), c, trim_start(b, syntax, false)),
    decreases b.len(),
{
    if b.len() > 0 {
        lemma_ended_rest(a, c, b, syntax);
        lemma_fields_from_first(b, syntax, false);
        if !is_name(first_field(b, syntax, false), false) {
            let x = without_first(a, syntax, false);
            let y = without_first(b, syntax, false);
            lemma_ended_start(x, c, y, syntax);
            if a.len() == 0 {
                assert(a =~= Seq::empty());
                lemma_no_names(syntax, false);
                assert(x =~= Seq::empty());
            }
        }
    }
}

proof fn lemma_ended_end(a: Seq<u8>, c: u8, b: Seq<u8>, syntax: Syntax)
    requires
        cuts(syntax, c),
        is_ended(a, c, b),
    ensures
        trim_end(a, syntax, false) == trim_end(b, syntax, false),
{
    let sep = separators(syntax, false);
    if b.len() == 0 {
        assert(a =~= b);
    } else {
        let last = last_field(b, syntax, false);
        lemma_last_field(b, sep);
        assert(sep(c));
        if last.len() > 0 {
            assert(last.last() == b.last());
            assert(!sep(last[last.len() - 1]));
        }
        assert(without_last(b, syntax, false) =~= a);
    }
}

/// In the syntax of Unix separators at the end of a path make no difference to
/// what is left of it.
pub proof fn law_strip_ended(text: Seq<u8>, base: PathView)
    requires
        text.len() > 0,
    ensures
        strip_prefix(unix(text.push(47u8)), base) == strip_prefix(unix(text), base),
{
    let a = unix(text);
    let b = unix(text.push(47u8));
    let u = Syntax::Unix;
    lemma_layout(a);
    lemma_layout(b);
    lemma_trailing_separator(a, 47u8);
    assert(b == PathView { bytes: text.push(47u8), ..a });
    if starts_with(a, base) {
        let n = components(base).len();
        assert(b.body() =~= a.body().push(47u8));
        assert(b.body()[0] == a.body()[0]);
        if text.len() > 1 {
            assert(b.body()[1] == a.body()[1]);
        }
        if n == 0 {
            let lead = a.lead_size() as int;
            assert(b.lead_size() == a.lead_size());
            assert(b.body().skip(lead) =~= a.body().skip(lead).push(47u8));
            assert(b.body().take(lead) =~= a.body().take(lead));
            lemma_ended_end(a.body().skip(lead), 47u8, b.body().skip(lead), u);
            assert(a.bytes.take(0) =~= b.bytes.take(0));
        } else {
            let passed = (n - a.start_parts().len()) as nat;
            assert(b.inner() =~= a.inner().push(47u8));
            lemma_ended_skip(a.inner(), 47u8, b.inner(), passed, u);
            let x = skip_names(a.inner(), passed, u, false);
            let y = skip_names(b.inner(), passed, u, false);
            lemma_ended_start(x, 47u8, y, u);
            lemma_ended_end(
                trim_start(x, u, false),
                47u8,
                trim_start(y, u, false),
                u,
            );
        }
        assert(tail(a, n) == tail(b, n));
    }
}

/// Stripped of nothing a path stays as it is written, and stripped of a drive
/// what stands behind it does, if it begins and ends with names or has one
/// separator more at its beginning.
pub proof fn law_strip_little(syntax: Syntax, letter: u8, other: u8, c: u8, rest: Seq<u8>)
    requires
        is_tidy(syntax, rest),
        cuts(syntax, c),
        65u8 <= letter <= 90u8,
        other == letter || other == letter + 32,
    ensures
        ({
            let none = PathView { syntax, bytes: Seq::empty() };
            &&& syntax == Syntax::Unix ==> strip_prefix(unix(rest), none) == Some(unix(rest))
            &&& syntax == Syntax::Unix ==> strip_prefix(unix(seq![c] + rest), none) == Some(
                unix(seq![c] + rest),
            )
            &&& syntax == Syntax::Windows ==> strip_prefix(
                windows(seq![letter, 58u8] + rest),
                windows(seq![other, 58u8]),
            ) == Some(windows(rest))
            &&& syntax == Syntax::Windows ==> strip_prefix(
                windows(seq![letter, 58u8] + (seq![c] + rest)),
                windows(seq![other, 58u8]),
            ) == Some(windows(seq![c] + rest))
        }),
{
    let rooted = seq![c] + rest;
    lemma_tidy(syntax, rest);
    if syntax is Unix {
        let none = unix(Seq::empty());
        law_empty_path(none);
        assert(components(none) =~= Seq::empty());
        lemma_layout(unix(rest));
        lemma_layout(unix(rooted));
        lemma_trimmed_tidy(unix(rest), c, rest);
        lemma_trimmed_tidy(unix(rooted), c, rest);
        assert(components(unix(rest)).take(0) =~= components(none));
        assert(components(unix(rooted)).take(0) =~= components(none));
        assert(tail(unix(rest), 0).bytes =~= rest);
        assert(tail(unix(rooted), 0).bytes =~= rooted);
    } else {
        lemma_strip_letter(letter, other, c, rest, rest);
        lemma_strip_letter(letter, other, c, rest, rooted);
    }
}

/// A body that begins and ends with names, perhaps behind a separator, is not
/// trimmed.
proof fn lemma_trimmed_tidy(path: PathView, c: u8, rest: Seq<u8>)
    requires
        is_tidy(path.syntax, rest),
        cuts(path.syntax, c),
        !path.is_verbatim(),
        path.body() == rest || path.body() == seq![c] + rest,
    ensures
        path.trimmed_body() == path.body(),
{
    lemma_tidy(path.syntax, rest);
    lemma_dot_first(rest, path.syntax);
    let body = path.body();
    if body == rest {
        assert(path.lead_size() == 0);
        assert(body.skip(0) =~= rest);
        assert(path.trimmed_body() =~= body);
    } else {
        assert(body[0] == c);
        assert(path.lead_size() == 1);
        assert(body.skip(1) =~= rest);
        assert(path.trimmed_body() =~= body);
    }
}

proof fn lemma_strip_letter(letter: u8, other: u8, c: u8, rest: Seq<u8>, behind: Seq<u8>)
    requires
        is_tidy(Syntax::Windows, rest),
        c == 47u8 || c == 92u8,
        behind == rest || behind == seq![c] + rest,
        65u8 <= letter <= 90u8,
        other == letter || other == letter + 32,
    ensures
        strip_prefix(windows(seq![letter, 58u8] + behind), windows(seq![other, 58u8])) == Some(
            windows(behind),
        ),
{
    let whole = windows(seq![letter, 58u8] + behind);
    let drive = seq![other, 58u8];
    law_drive_prefix(letter, behind);
    law_drive_prefix(other, Seq::empty());
    assert(drive + Seq::<u8>::empty() =~= drive);
    lemma_prefix_alone(drive, c);
    lemma_layout(whole);
    assert(whole.body() =~= behind);
    lemma_trimmed_tidy(whole, c, rest);
    assert(components(whole).take(1) =~= components(windows(drive)));
    assert(whole.prefix_parts().len() == 1);
}

// ---------------------------------------------------------------------------
// Prefixes in the syntax of Windows
// ---------------------------------------------------------------------------

/// Neither `/` nor `\` occurs.
pub open spec fn is_uncut(text: Seq<u8>) -> bool {
    forall|i: int| 0 <= i < text.len() ==> #[trigger] text[i] != 47u8 && text[i] != 92u8
}

/// `\` does not occur.
pub open spec fn has_no_backslash(text: Seq<u8>) -> bool {
    forall|i: int| 0 <= i < text.len() ==> #[trigger] text[i] != 92u8
}

/// A letter and a colon at the beginning are a drive, whatever follows. Its
/// letter counts in upper case.
pub proof fn law_drive_prefix(letter: u8, rest: Seq<u8>)
    requires
        65u8 <= letter <= 90u8 || 97u8 <= letter <= 122u8,
    ensures
        letter <= 90 ==> windows_prefix(seq![letter, 58u8] + rest) == Some(
            PrefixView::Disk(letter),
        ),
        letter >= 97 ==> windows_prefix(seq![letter, 58u8] + rest) == Some(
            PrefixView::Disk((letter - 32) as u8),
        ),
        windows_prefix(seq![letter, 58u8] + rest)->0.size() == 2,
{
    reveal(windows_prefix);
}

/// A path has no prefix if it does not begin with two separators or with a
/// drive, nor if one name alone stands behind two separators.
pub proof fn law_no_prefix(text: Seq<u8>, a: u8, b: u8)
    requires
        a == 47u8 || a == 92u8,
        b == 47u8 || b == 92u8,
    ensures
        text.len() == 0 ==> windows_prefix(text) is None,
        text.len() == 1 ==> windows_prefix(text) is None,
        text.len() > 1 && !((text[0] == 47u8 || text[0] == 92u8) && (text[1] == 47u8 || text[1]
            == 92u8)) && !(text[1] == 58u8 && (65u8 <= text[0] <= 90u8 || 97u8 <= text[0]
            <= 122u8)) ==> windows_prefix(text) is None,
        is_uncut(text) ==> windows_prefix(seq![a, b] + text) is None,
{
    reveal(windows_prefix);
    if is_uncut(text) {
        let bytes = seq![a, b] + text;
        assert forall|i: int| 2 <= i < bytes.len() implies bytes[i] != 47u8 && bytes[i]
            != 92u8 by {
            assert(bytes[i] == text[i - 2]);
        }
        lemma_field_end_is(bytes, 2, bytes.len() as int, false);
        assert(field_at(bytes, bytes.len() as int, false).len() == 0) by {
            lemma_field_end_is(bytes, bytes.len() as int, bytes.len() as int, false);
        }
    }
}

/// Two separators, a server, a separator and a share are a prefix, whatever
/// kinds the separators have. `.` and, behind `\\` and before `\`, `?` are no
/// servers.
pub proof fn law_share_prefix(
    a: u8,
    b: u8,
    server: Seq<u8>,
    c: u8,
    share: Seq<u8>,
    rest: Seq<u8>,
)
    requires
        a == 47u8 || a == 92u8,
        b == 47u8 || b == 92u8,
        c == 47u8 || c == 92u8,
        server.len() > 0 && is_uncut(server),
        share.len() > 0 && is_uncut(share),
        rest.len() > 0 ==> rest[0] == 47u8 || rest[0] == 92u8,
        server != seq![46u8],
        server == seq![63u8] ==> !(a == 92u8 && b == 92u8 && c == 92u8),
    ensures
        windows_prefix(seq![a, b] + server + seq![c] + share + rest) == Some(
            PrefixView::Unc(server, share),
        ),
        PrefixView::Unc(server, share).size() == 3 + server.len() + share.len(),
{
    reveal(windows_prefix);
    let bytes = seq![a, b] + server + seq![c] + share + rest;
    let e = 2 + server.len() as int;
    let f = e + 1 + share.len() as int;
    assert forall|i: int| 2 <= i < e implies bytes[i] == server[i - 2] by {}
    assert forall|i: int| e < i < f implies bytes[i] == share[i - e - 1] by {}
    assert(bytes[e] == c);
    assert(f < bytes.len() ==> bytes[f] == rest[0]);
    assert(bytes[2] == server[0]);
    if server.len() == 1 {
        assert(bytes[3] == c);
        assert(server =~= seq![server[0]]);
    } else {
        assert(bytes[3] == server[1]);
    }
    lemma_field_end_is(bytes, 2, e, false);
    lemma_field_end_is(bytes, e + 1, f, false);
    assert(field_at(bytes, 2, false) =~= server);
    assert(field_at(bytes, e + 1, false) =~= share);
}

/// Two separators, a dot, a separator and a name are a device.
pub proof fn law_device_prefix(a: u8, b: u8, c: u8, name: Seq<u8>, rest: Seq<u8>)
    requires
        a == 47u8 || a == 92u8,
        b == 47u8 || b == 92u8,
        c == 47u8 || c == 92u8,
        is_uncut(name),
        rest.len() > 0 ==> rest[0] == 47u8 || rest[0] == 92u8,
    ensures
        windows_prefix(seq![a, b, 46u8, c] + name + rest) == Some(PrefixView::DeviceNs(name)),
        PrefixView::DeviceNs(name).size() == 4 + name.len(),
{
    reveal(windows_prefix);
    let bytes = seq![a, b, 46u8, c] + name + rest;
    let e = 4 + name.len() as int;
    assert forall|i: int| 4 <= i < e implies bytes[i] == name[i - 4] by {}
    assert(e < bytes.len() ==> bytes[e] == rest[0]);
    lemma_field_end_is(bytes, 4, e, false);
    assert(field_at(bytes, 4, false) =~= name);
}

/// Behind `\\?\` a drive is a verbatim drive if nothing or a separator follows.
pub proof fn law_verbatim_drive_prefix(letter: u8, rest: Seq<u8>)
    requires
        65u8 <= letter <= 90u8 || 97u8 <= letter <= 122u8,
        rest.len() > 0 ==> rest[0] == 47u8 || rest[0] == 92u8,
    ensures
        ({
            let found = windows_prefix(seq![92u8, 92u8, 63u8, 92u8, letter, 58u8] + rest);
            &&& letter <= 90 ==> found == Some(PrefixView::VerbatimDisk(letter))
            &&& letter >= 97 ==> found == Some(PrefixView::VerbatimDisk((letter - 32) as u8))
            &&& found->0.size() == 6
        }),
{
    reveal(windows_prefix);
    let bytes = seq![92u8, 92u8, 63u8, 92u8, letter, 58u8] + rest;
    assert(bytes.len() > 6 ==> bytes[6] == rest[0]);
}

/// Behind `\\?\UNC\` a server, `\` and a share are a verbatim share; without a
/// share the server stands alone.
pub proof fn law_verbatim_share_prefix(c: u8, server: Seq<u8>, share: Seq<u8>, rest: Seq<u8>)
    requires
        c == 47u8 || c == 92u8,
        has_no_backslash(server),
        share.len() > 0 && has_no_backslash(share),
        rest.len() > 0 ==> rest[0] == 92u8,
    ensures
        ({
            let intro = seq![92u8, 92u8, 63u8, 92u8, 85u8, 78u8, 67u8, c];
            &&& windows_prefix(intro + server + seq![92u8] + share + rest) == Some(
                PrefixView::VerbatimUnc(server, share),
            )
            &&& PrefixView::VerbatimUnc(server, share).size() == 9 + server.len() + share.len()
            &&& windows_prefix(intro + server) == Some(
                PrefixView::VerbatimUnc(server, Seq::empty()),
            )
            &&& PrefixView::VerbatimUnc(server, Seq::empty()).size() == 8 + server.len()
        }),
{
    reveal(windows_prefix);
    let intro = seq![92u8, 92u8, 63u8, 92u8, 85u8, 78u8, 67u8, c];
    let bytes = intro + server + seq![92u8] + share + rest;
    let e = 8 + server.len() as int;
    let f = e + 1 + share.len() as int;
    assert forall|i: int| 8 <= i < e implies bytes[i] == server[i - 8] by {}
    assert forall|i: int| e < i < f implies bytes[i] == share[i - e - 1] by {}
    assert(bytes[e] == 92u8);
    assert(f < bytes.len() ==> bytes[f] == rest[0]);
    lemma_field_end_is(bytes, 8, e, true);
    lemma_field_end_is(bytes, e + 1, f, true);
    assert(field_at(bytes, 8, true) =~= server);
    assert(field_at(bytes, e + 1, true) =~= share);
    let alone = intro + server;
    assert forall|i: int| 8 <= i < e implies alone[i] == server[i - 8] by {}
    lemma_field_end_is(alone, 8, e, true);
    lemma_field_end_is(alone, e, e, true);
    assert(field_at(alone, 8, true) =~= server);
    assert(field_at(alone, e, true) =~= Seq::empty());
}

/// Behind `\\?\` any other name is a verbatim prefix of its own, up to `\`.
pub proof fn law_verbatim_prefix(name: Seq<u8>, rest: Seq<u8>)
    requires
        has_no_backslash(name),
        rest.len() > 0 ==> rest[0] == 92u8,
        !(name.len() >= 3 && name[0] == 85u8 && name[1] == 78u8 && name[2] == 67u8),
        !(name.len() >= 2 && name[1] == 58u8 && (65u8 <= name[0] <= 90u8 || 97u8 <= name[0]
            <= 122u8)),
    ensures
        windows_prefix(seq![92u8, 92u8, 63u8, 92u8] + name + rest) == Some(
            PrefixView::Verbatim(name),
        ),
        PrefixView::Verbatim(name).size() == 4 + name.len(),
{
    reveal(windows_prefix);
    let bytes = seq![92u8, 92u8, 63u8, 92u8] + name + rest;
    let e = 4 + name.len() as int;
    assert forall|i: int| 4 <= i < e implies bytes[i] == name[i - 4] by {}
    assert(e < bytes.len() ==> bytes[e] == rest[0]);
    lemma_field_end_is(bytes, 4, e, true);
    assert(field_at(bytes, 4, true) =~= name);
}

/// Which components the beginning of a path has. A prefix alone implies a root
/// directory unless it is a drive or verbatim. A separator behind it, or at the
/// beginning of a path without a prefix, is one.
pub proof fn law_windows_starts(bytes: Seq<u8>, c: u8, name: Seq<u8>)
    requires
        c == 47u8 || c == 92u8,
        name.len() > 0 && is_uncut(name) && name != seq![46u8],
        name.len() > 1 ==> name[1] != 58u8,
    ensures
        components(windows(Seq::empty())) == Seq::<PartView>::empty(),
        components(windows(seq![46u8])) == seq![PartView::Segment(seq![46u8])],
        components(windows(seq![c])) == seq![PartView::Root],
        components(windows(seq![c] + name)) == seq![PartView::Root, PartView::Segment(name)],
        windows_prefix(bytes) matches Some(p) ==> p.size() == bytes.len() ==> {
            &&& p is Disk || p is Verbatim || p is VerbatimUnc || p is VerbatimDisk ==> components(
                windows(bytes),
            ) == seq![PartView::Prefix(p)]
            &&& p is Unc || p is DeviceNs ==> components(windows(bytes)) == seq![
                PartView::Prefix(p),
                PartView::Root,
            ]
            &&& windows_prefix(bytes.push(c)) == Some(p) ==> components(windows(bytes.push(c)))
                == seq![PartView::Prefix(p), PartView::Root]
            &&& p is Disk ==> components(windows(bytes + name)) == seq![
                PartView::Prefix(p),
                PartView::Segment(name),
            ]
            &&& p is Disk ==> components(windows(bytes.push(c) + name)) == seq![
                PartView::Prefix(p),
                PartView::Root,
                PartView::Segment(name),
            ]
        },
{
    lemma_plain_starts(c);
    assert(is_plain_name(Syntax::Windows, name));
    law_no_prefix(name, c, c);
    law_no_prefix(seq![c], c, c);
    assert(!has_two_slashes(seq![c]));
    lemma_join_name(windows(seq![c]), name);
    law_windows_join_bytes(seq![c], name);
    assert(seq![PartView::Root].push(PartView::Segment(name)) =~= seq![
        PartView::Root,
        PartView::Segment(name),
    ]);
    if windows_prefix(bytes) is Some && windows_prefix(bytes)->0.size() == bytes.len() {
        lemma_prefix_alone(bytes, c);
        if windows_prefix(bytes)->0 is Disk {
            lemma_drive_and_name(bytes, c, name);
        }
    }
}

/// A name that fits adds one component.
proof fn lemma_join_name(base: PathView, name: Seq<u8>)
    requires
        base.bytes.len() > 0,
        is_plain_name(base.syntax, name),
        fits(base, PathView { bytes: name, ..base }),
    ensures
        components(join(base, PathView { bytes: name, ..base })) == components(base).push(
            PartView::Segment(name),
        ),
{
    let part = PathView { bytes: name, ..base };
    lemma_name_alone(part);
    law_join_components(base, part);
    assert(components(base) + seq![PartView::Segment(name)] =~= components(base).push(
        PartView::Segment(name),
    ));
}

/// The shortest paths in the syntax of Windows.
proof fn lemma_plain_starts(c: u8)
    requires
        c == 47u8 || c == 92u8,
    ensures
        components(windows(Seq::empty())) == Seq::<PartView>::empty(),
        components(windows(seq![46u8])) == seq![PartView::Segment(seq![46u8])],
        components(windows(seq![c])) == seq![PartView::Root],
{
    let w = Syntax::Windows;
    lemma_no_names(w, false);
    law_no_prefix(seq![46u8], c, c);
    law_no_prefix(seq![c], c, c);
    assert(segment_parts(Seq::empty()) =~= Seq::empty());
    law_empty_path(windows(Seq::empty()));
    assert(components(windows(Seq::empty())) =~= Seq::<PartView>::empty());
    let dot = windows(seq![46u8]);
    lemma_layout(dot);
    lemma_dot_first(dot.bytes, w);
    lemma_fields_from_first(dot.bytes, w, false);
    assert(names(dot.bytes, w, false) =~= Seq::empty());
    assert(components(dot) =~= seq![PartView::Segment(seq![46u8])]);
    let root = windows(seq![c]);
    lemma_layout(root);
    assert(root.inner() =~= Seq::empty());
    assert(components(root) =~= seq![PartView::Root]);
}

proof fn lemma_prefix_alone(bytes: Seq<u8>, c: u8)
    requires
        c == 47u8 || c == 92u8,
        windows_prefix(bytes) matches Some(p) && p.size() == bytes.len(),
    ensures
        ({
            let p = windows_prefix(bytes)->0;
            &&& p is Disk || p.is_verbatim() ==> components(windows(bytes)) == seq![
                PartView::Prefix(p),
            ]
            &&& p is Unc || p is DeviceNs ==> components(windows(bytes)) == seq![
                PartView::Prefix(p),
                PartView::Root,
            ]
            &&& windows_prefix(bytes.push(c)) == Some(p) ==> components(windows(bytes.push(c)))
                == seq![PartView::Prefix(p), PartView::Root]
        }),
{
    let w = Syntax::Windows;
    let p = windows_prefix(bytes)->0;
    let path = windows(bytes);
    let longer = windows(bytes.push(c));
    lemma_no_names(w, false);
    lemma_no_names(w, true);
    lemma_layout(path);
    assert(segment_parts(Seq::empty()) =~= Seq::empty());
    assert(path.body() =~= Seq::empty());
    assert(path.name_parts() =~= Seq::empty());
    if p is Disk || p.is_verbatim() {
        assert(components(path) =~= seq![PartView::Prefix(p)]);
    } else {
        assert(components(path) =~= seq![PartView::Prefix(p), PartView::Root]);
    }
    if windows_prefix(bytes.push(c)) == Some(p) {
        assert(longer.body() =~= seq![c]);
        assert(longer.inner() =~= Seq::empty());
        assert(components(longer) =~= seq![PartView::Prefix(p), PartView::Root]);
    }
}

proof fn lemma_drive_and_name(bytes: Seq<u8>, c: u8, name: Seq<u8>)
    requires
        c == 47u8 || c == 92u8,
        is_plain_name(Syntax::Windows, name),
        windows_prefix(name) is None,
        windows_prefix(bytes) matches Some(p) && p is Disk && p.size() == bytes.len(),
    ensures
        ({
            let p = windows_prefix(bytes)->0;
            &&& components(windows(bytes + name)) == seq![
                PartView::Prefix(p),
                PartView::Segment(name),
            ]
            &&& components(windows(bytes.push(c) + name)) == seq![
                PartView::Prefix(p),
                PartView::Root,
                PartView::Segment(name),
            ]
        }),
{
    let p = windows_prefix(bytes)->0;
    let drive = windows(bytes);
    let rooted = windows(bytes.push(c));
    assert(bytes.take(2) =~= bytes.push(c).take(2));
    lemma_prefix_stays(bytes, bytes.push(c));
    lemma_prefix_alone(bytes, c);
    lemma_two_bytes(bytes);
    law_windows_join_bytes(bytes, name);
    law_windows_join_bytes(bytes.push(c), name);
    lemma_join_name(drive, name);
    lemma_join_name(rooted, name);
    assert(windows(name) == PathView { bytes: name, ..drive });
    assert(seq![PartView::Prefix(p)].push(PartView::Segment(name)) =~= seq![
        PartView::Prefix(p),
        PartView::Segment(name),
    ]);
    assert(seq![PartView::Prefix(p), PartView::Root].push(PartView::Segment(name)) =~= seq![
        PartView::Prefix(p),
        PartView::Root,
        PartView::Segment(name),
    ]);
}

// ---------------------------------------------------------------------------
// Joining onto verbatim paths
// ---------------------------------------------------------------------------

/// A root directory, and behind it names in which `\` does not occur.
spec fn is_rooted_list(parts: Seq<PartView>) -> bool {
    &&& parts.len() > 0
    &&& parts[0] is Root
    &&& forall|i: int| 1 <= i < parts.len() ==> is_segment(#[trigger] parts[i])
}

/// A segment that is not empty and in which `\` does not occur.
spec fn is_segment(part: PartView) -> bool {
    part matches PartView::Segment(s) && s.len() > 0 && has_no_backslash(s)
}

/// Segments with `\` between them.
spec fn inner_text(parts: Seq<PartView>) -> Seq<u8>
    decreases parts.len(),
{
    if parts.len() <= 1 {
        Seq::empty()
    } else if parts.len() == 2 {
        parts[1]->Segment_0
    } else {
        inner_text(parts.drop_last()).push(92u8) + parts.last()->Segment_0
    }
}

proof fn lemma_one_verbatim_name(name: Seq<u8>)
    requires
        name.len() > 0,
        has_no_backslash(name),
    ensures
        names(name, Syntax::Windows, true) == seq![name],
{
    let sep = separators(Syntax::Windows, true);
    let first = first_field(name, Syntax::Windows, true);
    lemma_fields_from_first(name, Syntax::Windows, true);
    if first.len() < name.len() {
        assert(sep(name[first.len() as int]));
    }
    assert(first =~= name);
    lemma_no_names(Syntax::Windows, true);
    assert(names(name, Syntax::Windows, true) =~= seq![name]);
}

proof fn lemma_written(prefix: Seq<u8>, parts: Seq<PartView>)
    requires
        is_rooted_list(parts),
    ensures
        written(prefix, parts) == prefix.push(92u8) + inner_text(parts),
        segment_parts(names(inner_text(parts), Syntax::Windows, true)) == parts.skip(1),
    decreases parts.len(),
{
    let w = Syntax::Windows;
    lemma_no_names(w, true);
    if parts.len() == 1 {
        reveal_with_fuel(written, 2);
        assert(parts.drop_last() =~= Seq::empty());
        assert(written(prefix, parts) =~= prefix.push(92u8) + inner_text(parts));
        assert(segment_parts(Seq::empty()) =~= parts.skip(1));
    } else {
        let front = parts.drop_last();
        let last = parts.last()->Segment_0;
        assert(is_segment(parts[parts.len() - 1]));
        assert forall|i: int| 1 <= i < front.len() implies is_segment(#[trigger] front[i]) by {
            assert(front[i] == parts[i]);
        }
        lemma_written(prefix, front);
        lemma_one_verbatim_name(last);
        if parts.len() == 2 {
            assert(parts[0] is Root);
            assert(written(prefix, parts) =~= prefix.push(92u8) + inner_text(parts));
            assert(segment_parts(seq![last]) =~= parts.skip(1));
        } else {
            assert(is_segment(parts[parts.len() - 2]));
            assert(written(prefix, parts) =~= prefix.push(92u8) + inner_text(parts));
            lemma_names_concat(inner_text(front), 92u8, last, w, true);
            assert(segment_parts(names(inner_text(parts), w, true)) =~= segment_parts(
                names(inner_text(front), w, true),
            ).push(PartView::Segment(last)));
            assert(parts.skip(1) =~= front.skip(1).push(PartView::Segment(last)));
        }
    }
}

proof fn lemma_pushed_list(parts: Seq<PartView>, more: Seq<PartView>)
    requires
        is_rooted_list(parts),
        forall|i: int|
            0 <= i < more.len() ==> (#[trigger] more[i]) is Root || is_segment(more[i]),
    ensures
        is_rooted_list(push_parts(parts, more)),
    decreases more.len(),
{
    if more.len() > 0 {
        let front = more.drop_last();
        assert forall|i: int| 0 <= i < front.len() implies (#[trigger] front[i]) is Root
            || is_segment(front[i]) by {
            assert(front[i] == more[i]);
        }
        lemma_pushed_list(parts, front);
        let before = push_parts(parts, front);
        let after = push_parts(parts, more);
        assert(more[more.len() - 1] == more.last());
        assert forall|i: int| 1 <= i < after.len() implies is_segment(#[trigger] after[i]) by {
            if i < before.len() {
                assert(is_segment(before[i]));
            }
        }
    }
}

/// The names of a text hold no separator.
proof fn lemma_names_uncut(text: Seq<u8>, syntax: Syntax, verbatim: bool)
    ensures
        forall|i: int|
            0 <= i < names(text, syntax, verbatim).len() ==> free_of(
                #[trigger] names(text, syntax, verbatim)[i],
                separators(syntax, verbatim),
            ) && names(text, syntax, verbatim)[i].len() > 0,
{
    reveal(names);
    let sep = separators(syntax, verbatim);
    let pred = |s: Seq<u8>| is_name(s, verbatim);
    let fields = split_on(text, sep);
    let all = names(text, syntax, verbatim);
    lemma_split_fields(text, sep);
    assert forall|i: int| 0 <= i < all.len() implies free_of(#[trigger] all[i], sep)
        && all[i].len() > 0 by {
        fields.lemma_filter_pred(pred, i);
        assert(all.contains(all[i]));
        fields.lemma_filter_contains_rev(pred, all[i]);
        let k = fields.index_of(all[i]);
        assert(free_of(fields[k], sep));
    }
}

/// The components behind a prefix are root directories and segments.
proof fn lemma_parts_are_segments(path: PathView)
    requires
        path.syntax is Windows,
    ensures
        forall|i: int|
            path.prefix_parts().len() <= i < components(path).len() ==> (
            #[trigger] components(path)[i]) is Root || is_segment(components(path)[i]),
{
    let v = path.is_verbatim();
    let all = names(path.inner(), path.syntax, v);
    let before = path.prefix_parts().len() + path.start_parts().len();
    lemma_names_uncut(path.inner(), path.syntax, v);
    assert forall|i: int| path.prefix_parts().len() <= i < components(path).len() implies (
    #[trigger] components(path)[i]) is Root || is_segment(components(path)[i]) by {
        if i >= before {
            let s = all[i - before];
            assert(components(path)[i] == PartView::Segment(s));
            assert forall|k: int| 0 <= k < s.len() implies #[trigger] s[k] != 92u8 by {
                assert(!separators(path.syntax, v)(s[k]));
            }
        } else {
            assert(components(path)[i] == path.start_parts()[i - path.prefix_parts().len()]);
        }
    }
}

/// A verbatim path with a root directory, whose prefix stays as it is when a
/// separator follows.
pub open spec fn is_verbatim_directory(path: PathView) -> bool {
    &&& path.syntax == Syntax::Windows
    &&& path.is_verbatim()
    &&& path.has_leading_separator()
    &&& path.prefix() matches Some(PrefixView::VerbatimUnc(_, share)) ==> share.len() > 0
    &&& path.prefix() != Some(PrefixView::Verbatim(seq![85u8, 78u8, 67u8]))
}

/// The components of what is joined onto a verbatim path.
proof fn lemma_join_verbatim(base: PathView, part: PathView)
    requires
        is_verbatim_directory(base),
        part.syntax == Syntax::Windows,
        part.prefix() is None,
        part.bytes.len() > 0,
    ensures
        components(base).len() > 1,
        components(join(base, part)) == seq![components(base)[0]] + push_parts(
            components(base).skip(1),
            components(part),
        ),
{
    let whole = join(base, part);
    let p = base.prefix()->0;
    let m = p.size() as int;
    let front = base.bytes.take(m);
    let own = components(base).skip(1);
    let parts = push_parts(own, components(part));
    lemma_layout(base);
    lemma_parts_are_segments(base);
    lemma_parts_are_segments(part);
    assert(PathView { syntax: base.syntax, ..part } == part);
    assert(whole.bytes == written(front, parts));
    assert(own[0] == components(base)[1]);
    assert forall|i: int| 1 <= i < own.len() implies is_segment(#[trigger] own[i]) by {
        assert(own[i] == components(base)[i + 1]);
        assert(components(base)[i + 1] == base.name_parts()[i - 1]);
    }
    lemma_pushed_list(own, components(part));
    lemma_written(front, parts);
    lemma_prefix_size(base.bytes);
    let b = whole.bytes;
    assert(b[m] == 92u8);
    assert(b.take(m) =~= base.bytes.take(m));
    lemma_verbatim_stays(base.bytes, b);
    assert(whole.body() =~= seq![92u8] + inner_text(parts));
    assert(whole.inner() =~= inner_text(parts));
    assert(seq![PartView::Root] + parts.skip(1) =~= parts);
    assert(components(whole) =~= seq![components(base)[0]] + parts);
}

/// Joining onto a verbatim path goes by components: a name is added, `.` adds
/// nothing, `..` takes the last name away, and a part that begins with a
/// separator replaces all names.
pub proof fn law_join_verbatim(base: PathView, c: u8, name: Seq<u8>)
    requires
        is_verbatim_directory(base),
        c == 47u8 || c == 92u8,
        name.len() > 0 && is_uncut(name),
        name != seq![46u8] && name != seq![46u8, 46u8],
        name.len() > 1 ==> name[1] != 58u8,
    ensures
        components(join(base, windows(name))) == components(base).push(PartView::Segment(name)),
        components(join(base, windows(seq![46u8]))) == components(base),
        ({
            let last = components(base).last();
            let after = components(join(base, windows(seq![46u8, 46u8])));
            &&& last is Segment && last != PartView::Segment(seq![46u8]) && last
                != PartView::Segment(seq![46u8, 46u8]) ==> after == components(base).drop_last()
            &&& !(last is Segment && last != PartView::Segment(seq![46u8]) && last
                != PartView::Segment(seq![46u8, 46u8])) ==> after == components(base)
        }),
        components(join(base, windows(seq![c] + name))) == seq![
            components(base)[0],
            PartView::Root,
            PartView::Segment(name),
        ],
{
    lemma_verbatim_and_name(base, name);
    lemma_verbatim_and_dots(base);
    lemma_verbatim_and_root(base, c, name);
}

proof fn lemma_verbatim_and_name(base: PathView, name: Seq<u8>)
    requires
        is_verbatim_directory(base),
        name.len() > 0 && is_uncut(name),
        name != seq![46u8] && name != seq![46u8, 46u8],
        name.len() > 1 ==> name[1] != 58u8,
    ensures
        components(join(base, windows(name))) == components(base).push(PartView::Segment(name)),
{
    let all = components(base);
    assert(windows(name).prefix() is None) by {
        law_no_prefix(name, 47u8, 47u8);
    }
    assert(components(windows(name)) == seq![PartView::Segment(name)]) by {
        assert(is_plain_name(Syntax::Windows, name));
        lemma_name_alone(windows(name));
    }
    lemma_join_verbatim(base, windows(name));
    lemma_push_few(all.skip(1), name);
    assert(seq![all[0]] + all.skip(1).push(PartView::Segment(name)) =~= all.push(
        PartView::Segment(name),
    ));
}

proof fn lemma_verbatim_and_dots(base: PathView)
    requires
        is_verbatim_directory(base),
    ensures
        components(join(base, windows(seq![46u8]))) == components(base),
        ({
            let last = components(base).last();
            let after = components(join(base, windows(seq![46u8, 46u8])));
            &&& last is Segment && last != PartView::Segment(seq![46u8]) && last
                != PartView::Segment(seq![46u8, 46u8]) ==> after == components(base).drop_last()
            &&& !(last is Segment && last != PartView::Segment(seq![46u8]) && last
                != PartView::Segment(seq![46u8, 46u8])) ==> after == components(base)
        }),
{
    let all = components(base);
    let dots = seq![46u8, 46u8];
    assert(windows(dots).prefix() is None && windows(seq![46u8]).prefix() is None) by {
        law_no_prefix(dots, 47u8, 47u8);
        law_no_prefix(seq![46u8], 47u8, 47u8);
    }
    assert(components(windows(dots)) == seq![PartView::Segment(dots)]) by {
        assert(dots.len() == 2 && seq![46u8].len() == 1);
        assert(is_plain_name(Syntax::Windows, dots));
        lemma_name_alone(windows(dots));
    }
    lemma_plain_starts(47u8);
    lemma_join_verbatim(base, windows(dots));
    lemma_join_verbatim(base, windows(seq![46u8]));
    let other = seq![47u8];
    assert(other[0] == 47u8 && other.len() == 1 && dots.len() == 2 && seq![46u8][0] == 46u8);
    lemma_push_few(all.skip(1), other);
    assert(seq![all[0]] + all.skip(1) =~= all);
    assert(seq![all[0]] + all.skip(1).drop_last() =~= all.drop_last());
    assert(all.skip(1).last() == all.last());
}

proof fn lemma_verbatim_and_root(base: PathView, c: u8, name: Seq<u8>)
    requires
        is_verbatim_directory(base),
        c == 47u8 || c == 92u8,
        name.len() > 0 && is_uncut(name),
        name != seq![46u8] && name != seq![46u8, 46u8],
        name.len() > 1 ==> name[1] != 58u8,
    ensures
        components(join(base, windows(seq![c] + name))) == seq![
            components(base)[0],
            PartView::Root,
            PartView::Segment(name),
        ],
{
    let all = components(base);
    let rooted = seq![c] + name;
    assert(windows(rooted).prefix() is None) by {
        assert(rooted[0] == c && rooted[1] == name[0]);
        law_no_prefix(rooted, 47u8, 47u8);
    }
    law_windows_starts(Seq::empty(), c, name);
    lemma_join_verbatim(base, windows(rooted));
    lemma_push_few(all.skip(1), name);
    assert(seq![all[0]] + seq![PartView::Root, PartView::Segment(name)] =~= seq![
        all[0],
        PartView::Root,
        PartView::Segment(name),
    ]);
}

/// One or two components more.
proof fn lemma_push_few(own: Seq<PartView>, name: Seq<u8>)
    requires
        name != seq![46u8] && name != seq![46u8, 46u8],
    ensures
        push_parts(own, seq![PartView::Segment(name)]) == own.push(PartView::Segment(name)),
        push_parts(own, seq![PartView::Segment(seq![46u8])]) == own,
        push_parts(own, seq![PartView::Segment(seq![46u8, 46u8])]) == (if own.len() > 0
            && own.last() is Segment && own.last() != PartView::Segment(seq![46u8]) && own.last()
            != PartView::Segment(seq![46u8, 46u8]) {
            own.drop_last()
        } else {
            own
        }),
        push_parts(own, seq![PartView::Root, PartView::Segment(name)]) == seq![
            PartView::Root,
            PartView::Segment(name),
        ],
{
    reveal_with_fuel(push_parts, 3);
    let none = Seq::<PartView>::empty();
    assert(seq![46u8].len() == 1 && seq![46u8, 46u8].len() == 2);
    assert(seq![PartView::Segment(name)].drop_last() =~= none);
    assert(seq![PartView::Segment(seq![46u8])].drop_last() =~= none);
    assert(seq![PartView::Segment(seq![46u8, 46u8])].drop_last() =~= none);
    assert(seq![PartView::Root].drop_last() =~= none);
    let more = seq![PartView::Root, PartView::Segment(name)];
    assert(more.drop_last() =~= seq![PartView::Root]);
    assert(push_parts(own, seq![PartView::Root]) == seq![PartView::Root]);
    assert(push_parts(own, more) =~= more);
}

/// A longer part is joined onto a verbatim path in the same way, from its first
/// component to its last.
pub proof fn law_join_verbatim_longer(base: PathView, part: Seq<u8>, c: u8, name: Seq<u8>)
    requires
        is_verbatim_directory(base),
        c == 47u8 || c == 92u8,
        name.len() > 0 && is_uncut(name),
        name != seq![46u8] && name != seq![46u8, 46u8],
        name.len() > 1 ==> name[1] != 58u8,
        part.len() > 0,
        part.last() != 47u8 && part.last() != 92u8,
        windows_prefix(part) is None,
        is_settled(windows(part)),
        part.len() == 2 ==> part[1] != 58u8,
    ensures
        components(join(base, windows(part.push(c) + name))) == components(
            join(base, windows(part)),
        ).push(PartView::Segment(name)),
        ({
            let before = components(join(base, windows(part)));
            let after = components(join(base, windows(part.push(c) + seq![46u8, 46u8])));
            let last = before.last();
            &&& last is Segment && last != PartView::Segment(seq![46u8]) && last
                != PartView::Segment(seq![46u8, 46u8]) ==> after == before.drop_last()
            &&& !(last is Segment && last != PartView::Segment(seq![46u8]) && last
                != PartView::Segment(seq![46u8, 46u8])) ==> after == before
        }),
{
    let dots = seq![46u8, 46u8];
    let own = components(base).skip(1);
    let first = components(base)[0];
    assert(dots.len() == 2 && dots != seq![46u8]);
    assert(!dots.contains(47u8) && !dots.contains(92u8));
    assert(!name.contains(47u8) && !name.contains(92u8));
    lemma_longer_prefix(part, c, name);
    lemma_longer_prefix(part, c, dots);
    law_windows_components(part, c, name);
    law_windows_components(part, c, dots);
    lemma_join_verbatim(base, windows(part));
    lemma_join_verbatim(base, windows(part.push(c) + name));
    lemma_join_verbatim(base, windows(part.push(c) + dots));
    let more = components(windows(part));
    let before = push_parts(own, more);
    lemma_parts_are_segments(windows(part));
    lemma_parts_are_segments(base);
    assert(more.push(PartView::Segment(name)).drop_last() =~= more);
    assert(more.push(PartView::Segment(dots)).drop_last() =~= more);
    assert((seq![first] + before).push(PartView::Segment(name)) =~= seq![first] + before.push(
        PartView::Segment(name),
    ));
    assert(before.len() > 0) by {
        assert(own[0] == components(base)[1]);
        assert forall|i: int| 1 <= i < own.len() implies is_segment(#[trigger] own[i]) by {
            assert(own[i] == components(base)[i + 1]);
            assert(components(base)[i + 1] == base.name_parts()[i - 1]);
        }
        lemma_pushed_list(own, more);
    }
    assert((seq![first] + before).last() == before.last());
    assert((seq![first] + before).drop_last() =~= seq![first] + before.drop_last());
}

/// A part stays without a prefix when a separator and a name follow.
proof fn lemma_longer_prefix(part: Seq<u8>, c: u8, name: Seq<u8>)
    requires
        c == 47u8 || c == 92u8,
        part.len() > 0,
        windows_prefix(part) is None,
        is_settled(windows(part)),
        part.last() != 47u8 && part.last() != 92u8,
    ensures
        windows_prefix(part.push(c) + name) is None,
{
    let b = part.push(c) + name;
    lemma_drive_or_none(part);
    lemma_drive_or_none(b);
    assert(b[0] == part[0]);
    if part.len() > 1 {
        assert(b[1] == part[1]);
    } else {
        assert(b[1] == c);
        assert(part.last() == part[0]);
    }
}

} // verus!
