//! How a Windows path can begin: with a drive, with a share of a server, with a
//! device, or with one of the verbatim forms, in which `\` alone separates.
use vstd::prelude::*;

verus! {

/// The byte `/`.
pub const SLASH: u8 = 47;

/// The byte `\`.
pub const BACKSLASH: u8 = 92;

/// The byte `.`.
pub const DOT: u8 = 46;

/// The byte `:`.
pub const COLON: u8 = 58;

/// The byte `?`.
pub const QUESTION_MARK: u8 = 63;

// ---------------------------------------------------------------------------
// What a prefix is
// ---------------------------------------------------------------------------

/// The beginning of a Windows path.
#[verifier::ext_equal]
pub enum PrefixView {
    /// `C:`, with the letter in upper case.
    Disk(u8),
    /// `\\server\share`.
    Unc(Seq<u8>, Seq<u8>),
    /// `\\.\device`.
    DeviceNs(Seq<u8>),
    /// `\\?\name`.
    Verbatim(Seq<u8>),
    /// `\\?\UNC\server\share`.
    VerbatimUnc(Seq<u8>, Seq<u8>),
    /// `\\?\C:`, with the letter in upper case.
    VerbatimDisk(u8),
}

impl PrefixView {
    /// The number of bytes that the prefix is written with.
    pub open spec fn size(self) -> nat {
        match self {
            PrefixView::Disk(_) => 2,
            PrefixView::Unc(server, share) => 3 + server.len() + share.len(),
            PrefixView::DeviceNs(name) => 4 + name.len(),
            PrefixView::Verbatim(name) => 4 + name.len(),
            PrefixView::VerbatimUnc(server, share) => if share.len() > 0 {
                9 + server.len() + share.len()
            } else {
                8 + server.len()
            },
            PrefixView::VerbatimDisk(_) => 6,
        }
    }

    /// One of the forms that begin with `\\?\`.
    pub open spec fn is_verbatim(self) -> bool {
        self is Verbatim || self is VerbatimUnc || self is VerbatimDisk
    }
}

/// Either of the separators.
pub open spec fn is_slash(b: u8) -> bool {
    b == SLASH || b == BACKSLASH
}

/// A byte that ends a field of a prefix; in a verbatim form `/` does not.
pub open spec fn ends_field(b: u8, verbatim: bool) -> bool {
    b == BACKSLASH || (!verbatim && b == SLASH)
}

/// The end of the field that begins at `from`.
pub open spec fn field_end(bytes: Seq<u8>, from: int, verbatim: bool) -> int
    decreases bytes.len() - from,
{
    if from >= bytes.len() {
        bytes.len() as int
    } else if ends_field(bytes[from], verbatim) {
        from
    } else {
        field_end(bytes, from + 1, verbatim)
    }
}

/// The beginning of the field behind the one that ends at `end`.
pub open spec fn next_field(bytes: Seq<u8>, end: int) -> int {
    if end < bytes.len() {
        end + 1
    } else {
        bytes.len() as int
    }
}

/// The field that begins at `from`.
pub open spec fn field_at(bytes: Seq<u8>, from: int, verbatim: bool) -> Seq<u8> {
    bytes.subrange(from, field_end(bytes, from, verbatim))
}

/// An ASCII letter.
pub open spec fn is_letter(b: u8) -> bool {
    65 <= b <= 90 || 97 <= b <= 122
}

/// A letter in upper case.
pub open spec fn upper(b: u8) -> u8 {
    if 97 <= b <= 122 {
        (b - 32) as u8
    } else {
        b
    }
}

/// A letter and a colon stand at `at`.
pub open spec fn is_drive(bytes: Seq<u8>, at: int) -> bool {
    at + 2 <= bytes.len() && is_letter(bytes[at]) && bytes[at + 1] == COLON
}

/// Two separators of either kind stand at the beginning.
pub open spec fn has_two_slashes(bytes: Seq<u8>) -> bool {
    bytes.len() >= 2 && is_slash(bytes[0]) && is_slash(bytes[1])
}

/// `\\?\` stands at the beginning, written in just this way.
pub open spec fn begins_verbatim(bytes: Seq<u8>) -> bool {
    bytes.len() >= 4 && bytes[0] == BACKSLASH && bytes[1] == BACKSLASH && bytes[2] == QUESTION_MARK
        && bytes[3] == BACKSLASH
}

/// `UNC` and a separator stand behind `\\?\`.
pub open spec fn continues_unc(bytes: Seq<u8>) -> bool {
    bytes.len() >= 8 && bytes[4] == 85 && bytes[5] == 78 && bytes[6] == 67 && is_slash(bytes[7])
}

/// `\\.\` stands at the beginning, with separators of either kind.
pub open spec fn begins_device(bytes: Seq<u8>) -> bool {
    bytes.len() >= 4 && has_two_slashes(bytes) && bytes[2] == DOT && is_slash(bytes[3])
}

/// The prefix that bytes begin with, if they do. A drive counts as a verbatim
/// one only where nothing but a separator follows it. Two separators alone,
/// without both a server and a share behind them, are no prefix.
#[verifier::opaque]
pub open spec fn windows_prefix(bytes: Seq<u8>) -> Option<PrefixView> {
    if begins_verbatim(bytes) {
        if continues_unc(bytes) {
            let share = next_field(bytes, field_end(bytes, 8, true));
            Some(PrefixView::VerbatimUnc(field_at(bytes, 8, true), field_at(bytes, share, true)))
        } else if is_drive(bytes, 4) && (bytes.len() == 6 || is_slash(bytes[6])) {
            Some(PrefixView::VerbatimDisk(upper(bytes[4])))
        } else {
            Some(PrefixView::Verbatim(field_at(bytes, 4, true)))
        }
    } else if begins_device(bytes) {
        Some(PrefixView::DeviceNs(field_at(bytes, 4, false)))
    } else if has_two_slashes(bytes) {
        let share = next_field(bytes, field_end(bytes, 2, false));
        if field_at(bytes, 2, false).len() > 0 && field_at(bytes, share, false).len() > 0 {
            Some(PrefixView::Unc(field_at(bytes, 2, false), field_at(bytes, share, false)))
        } else {
            None
        }
    } else if is_drive(bytes, 0) {
        Some(PrefixView::Disk(upper(bytes[0])))
    } else {
        None
    }
}

// ---------------------------------------------------------------------------
// Lemmas
// ---------------------------------------------------------------------------

/// A field ends within the bytes, at a separator or at their end, and holds no
/// separator.
pub proof fn lemma_field_end(bytes: Seq<u8>, from: int, verbatim: bool)
    requires
        0 <= from <= bytes.len(),
    ensures
        from <= field_end(bytes, from, verbatim) <= bytes.len(),
        field_end(bytes, from, verbatim) < bytes.len() ==> ends_field(
            bytes[field_end(bytes, from, verbatim)],
            verbatim,
        ),
        forall|i: int|
            from <= i < field_end(bytes, from, verbatim) ==> !ends_field(
                #[trigger] bytes[i],
                verbatim,
            ),
    decreases bytes.len() - from,
{
    if from < bytes.len() && !ends_field(bytes[from], verbatim) {
        lemma_field_end(bytes, from + 1, verbatim);
    }
}

/// The end of a field is the first place where a separator stands.
pub proof fn lemma_field_end_is(bytes: Seq<u8>, from: int, end: int, verbatim: bool)
    requires
        0 <= from <= end <= bytes.len(),
        end < bytes.len() ==> ends_field(bytes[end], verbatim),
        forall|i: int| from <= i < end ==> !ends_field(#[trigger] bytes[i], verbatim),
    ensures
        field_end(bytes, from, verbatim) == end,
    decreases end - from,
{
    if from < end {
        assert(!ends_field(bytes[from], verbatim));
        lemma_field_end_is(bytes, from + 1, end, verbatim);
    }
}

/// A prefix lies within the bytes. What follows it is a separator, except behind
/// a drive.
pub proof fn lemma_prefix_size(bytes: Seq<u8>)
    ensures
        windows_prefix(bytes) matches Some(p) ==> {
            &&& 2 <= p.size() <= bytes.len()
            &&& p.size() < bytes.len() && !(p is Disk) ==> is_slash(bytes[p.size() as int])
        },
{
    reveal(windows_prefix);
    if bytes.len() >= 2 {
        lemma_field_end(bytes, 2, false);
        let e = field_end(bytes, 2, false);
        lemma_field_end(bytes, next_field(bytes, e), false);
    }
    if bytes.len() >= 4 {
        lemma_field_end(bytes, 4, false);
        lemma_field_end(bytes, 4, true);
    }
    if bytes.len() >= 8 {
        lemma_field_end(bytes, 8, true);
        let e = field_end(bytes, 8, true);
        lemma_field_end(bytes, next_field(bytes, e), true);
    }
}

/// A share or a device with a name ends with no separator.
pub proof fn lemma_prefix_end(bytes: Seq<u8>)
    ensures
        windows_prefix(bytes) matches Some(p) && p.size() == bytes.len() && (p is Unc || (
        p is DeviceNs && p.size() > 4)) ==> !is_slash(bytes.last()),
{
    reveal(windows_prefix);
    if bytes.len() >= 2 {
        lemma_field_end(bytes, 2, false);
        let e = field_end(bytes, 2, false);
        lemma_field_end(bytes, next_field(bytes, e), false);
    }
    if bytes.len() >= 4 {
        lemma_field_end(bytes, 4, false);
    }
    if bytes.len() > 0 {
        assert(bytes.last() == bytes[bytes.len() - 1]);
    }
}

/// Without two separators at the beginning, a drive is the only prefix.
pub proof fn lemma_drive_or_none(bytes: Seq<u8>)
    ensures
        !has_two_slashes(bytes) ==> (windows_prefix(bytes) is Some <==> is_drive(bytes, 0)),
{
    reveal(windows_prefix);
}

/// A field that does not change ends where it ended.
proof fn lemma_field_stays(a: Seq<u8>, b: Seq<u8>, from: int, verbatim: bool)
    requires
        0 <= from <= field_end(a, from, verbatim) <= b.len(),
        from <= a.len(),
        forall|i: int| from <= i < field_end(a, from, verbatim) ==> a[i] == #[trigger] b[i],
        field_end(a, from, verbatim) < b.len() ==> ends_field(
            b[field_end(a, from, verbatim)],
            verbatim,
        ),
    ensures
        field_end(b, from, verbatim) == field_end(a, from, verbatim),
        field_at(b, from, verbatim) == field_at(a, from, verbatim),
{
    let end = field_end(a, from, verbatim);
    lemma_field_end(a, from, verbatim);
    assert forall|i: int| from <= i < end implies !ends_field(#[trigger] b[i], verbatim) by {
        assert(a[i] == b[i]);
    }
    lemma_field_end_is(b, from, end, verbatim);
    assert(field_at(b, from, verbatim) =~= field_at(a, from, verbatim));
}

/// A prefix that is not verbatim is found again in front of other bytes: behind
/// a drive any may stand, behind the others a separator comes first.
pub proof fn lemma_prefix_stays(a: Seq<u8>, b: Seq<u8>)
    requires
        windows_prefix(a) matches Some(p) && !p.is_verbatim() && p.size() <= b.len() && a.take(
            p.size() as int,
        ) == b.take(p.size() as int) && (p.size() < b.len() ==> p is Disk || is_slash(
            b[p.size() as int],
        )),
    ensures
        windows_prefix(b) == windows_prefix(a),
{
    reveal(windows_prefix);
    let p = windows_prefix(a)->0;
    let m = p.size() as int;
    lemma_prefix_size(a);
    assert forall|i: int| 0 <= i < m implies a[i] == #[trigger] b[i] by {
        assert(a.take(m)[i] == b.take(m)[i]);
    }
    assert(a[0] == b[0] && a[1] == b[1]);
    match p {
        PrefixView::Disk(_) => {},
        PrefixView::Unc(server, share) => {
            lemma_field_end(a, 2, false);
            let e = field_end(a, 2, false);
            lemma_field_end(a, next_field(a, e), false);
            assert(a[2] == b[2] && a[3] == b[3]);
            assert(a[e] == b[e]);
            lemma_field_stays(a, b, 2, false);
            lemma_field_stays(a, b, e + 1, false);
        },
        PrefixView::DeviceNs(name) => {
            lemma_field_end(a, 4, false);
            assert(a[2] == b[2] && a[3] == b[3]);
            lemma_field_stays(a, b, 4, false);
        },
        _ => {},
    }
}

/// A verbatim prefix is found again where `\` follows it, unless more could
/// belong to it.
pub proof fn lemma_verbatim_stays(a: Seq<u8>, b: Seq<u8>)
    requires
        windows_prefix(a) matches Some(p) && p.is_verbatim() && p.size() < b.len() && a.take(
            p.size() as int,
        ) == b.take(p.size() as int) && b[p.size() as int] == BACKSLASH,
        windows_prefix(a) matches Some(PrefixView::VerbatimUnc(_, share)) ==> share.len() > 0,
        windows_prefix(a) != Some(PrefixView::Verbatim(seq![85u8, 78u8, 67u8])),
    ensures
        windows_prefix(b) == windows_prefix(a),
{
    reveal(windows_prefix);
    let p = windows_prefix(a)->0;
    let m = p.size() as int;
    lemma_prefix_size(a);
    assert forall|i: int| 0 <= i < m implies a[i] == #[trigger] b[i] by {
        assert(a.take(m)[i] == b.take(m)[i]);
    }
    lemma_field_end(a, 4, true);
    assert(a[0] == b[0] && a[1] == b[1] && a[2] == b[2] && a[3] == b[3]);
    match p {
        PrefixView::Verbatim(name) => {
            lemma_field_stays(a, b, 4, true);
            assert forall|i: int| 0 <= i < name.len() implies name[i] == #[trigger] b[i + 4] by {
                assert(a[i + 4] == b[i + 4]);
            }
            if name.len() == 3 && name[0] == 85 && name[1] == 78 && name[2] == 67 {
                assert(name =~= seq![85u8, 78u8, 67u8]);
            }
            assert(name.len() >= 1 ==> b[4] == name[0] && a[4] == name[0]);
            assert(name.len() >= 2 ==> b[5] == name[1] && a[5] == name[1]);
            assert(name.len() >= 3 ==> b[6] == name[2] && a[6] == name[2]);
            assert(name.len() >= 4 ==> b[7] == name[3] && a[7] == name[3]);
        },
        PrefixView::VerbatimUnc(server, share) => {
            lemma_field_end(a, 8, true);
            let e = field_end(a, 8, true);
            lemma_field_end(a, next_field(a, e), true);
            assert(a[4] == b[4] && a[5] == b[5] && a[6] == b[6] && a[7] == b[7]);
            assert(a[e] == b[e]);
            lemma_field_stays(a, b, 8, true);
            lemma_field_stays(a, b, e + 1, true);
        },
        _ => {
            assert(a[4] == b[4] && a[5] == b[5]);
        },
    }
}

/// Bytes without a prefix have none when some are cut off at the end.
pub proof fn lemma_no_prefix_when_cut(a: Seq<u8>, k: int)
    requires
        0 <= k <= a.len(),
        windows_prefix(a) is None,
    ensures
        windows_prefix(a.take(k)) is None,
{
    reveal(windows_prefix);
    let b = a.take(k);
    if has_two_slashes(b) && !begins_verbatim(b) && !begins_device(b) {
        lemma_field_end(a, 2, false);
        lemma_field_end(b, 2, false);
        let e = field_end(a, 2, false);
        let f = field_end(b, 2, false);
        if e < k {
            assert(b[e] == a[e]);
            assert forall|i: int| 2 <= i < e implies !ends_field(#[trigger] b[i], false) by {
                assert(b[i] == a[i]);
            }
            lemma_field_end_is(b, 2, e, false);
            lemma_field_end(a, e + 1, false);
            lemma_field_end(b, e + 1, false);
            if field_end(b, e + 1, false) > e + 1 {
                assert(b[e + 1] == a[e + 1]);
                assert(!ends_field(b[e + 1], false));
            }
        } else {
            if f < k {
                assert(b[f] == a[f]);
            }
            assert(field_at(b, next_field(b, f), false).len() == 0);
        }
    }
}

/// A prefix is found again when bytes behind it are cut off, as long as the
/// separator that follows it stays.
pub proof fn lemma_prefix_when_cut(a: Seq<u8>, k: int)
    requires
        windows_prefix(a) matches Some(p) && p.size() <= k <= a.len() && (p.size() < a.len()
            && is_slash(a[p.size() as int]) ==> p.size() < k),
    ensures
        windows_prefix(a.take(k)) == windows_prefix(a),
{
    reveal(windows_prefix);
    let b = a.take(k);
    let p = windows_prefix(a)->0;
    let m = p.size() as int;
    lemma_prefix_size(a);
    if !p.is_verbatim() {
        assert(a.take(m) =~= b.take(m));
        lemma_prefix_stays(a, b);
    } else {
        assert(begins_verbatim(b));
        lemma_field_end(a, 4, true);
        match p {
            PrefixView::Verbatim(name) => {
                lemma_field_stays(a, b, 4, true);
            },
            PrefixView::VerbatimUnc(server, share) => {
                lemma_field_end(a, 8, true);
                let e = field_end(a, 8, true);
                lemma_field_stays(a, b, 8, true);
                let next = next_field(a, e);
                lemma_field_end(a, next, true);
                if e < a.len() {
                    lemma_field_stays(a, b, next, true);
                }
            },
            _ => {},
        }
    }
}

// ---------------------------------------------------------------------------
// The executable type
// ---------------------------------------------------------------------------

/// The beginning of a Windows path.
#[derive(Debug, PartialEq)]
pub enum PathPrefix {
    /// `C:`, with the letter in upper case.
    Disk(u8),
    /// `\\server\share`.
    Unc(Vec<u8>, Vec<u8>),
    /// `\\.\device`.
    DeviceNs(Vec<u8>),
    /// `\\?\name`.
    Verbatim(Vec<u8>),
    /// `\\?\UNC\server\share`.
    VerbatimUnc(Vec<u8>, Vec<u8>),
    /// `\\?\C:`, with the letter in upper case.
    VerbatimDisk(u8),
}

impl View for PathPrefix {
    type V = PrefixView;

    open spec fn view(&self) -> PrefixView {
        match self {
            PathPrefix::Disk(letter) => PrefixView::Disk(*letter),
            PathPrefix::Unc(server, share) => PrefixView::Unc(server@, share@),
            PathPrefix::DeviceNs(name) => PrefixView::DeviceNs(name@),
            PathPrefix::Verbatim(name) => PrefixView::Verbatim(name@),
            PathPrefix::VerbatimUnc(server, share) => PrefixView::VerbatimUnc(server@, share@),
            PathPrefix::VerbatimDisk(letter) => PrefixView::VerbatimDisk(*letter),
        }
    }
}

/// Compares two byte strings.
pub fn bytes_equal(a: &Vec<u8>, b: &Vec<u8>) -> (r: bool)
    ensures
        r == (a@ == b@),
{
    if a.len() != b.len() {
        return false;
    }
    let mut i: usize = 0;
    while i < a.len()
        invariant
            a@.len() == b@.len(),
            i <= a@.len(),
            forall|j: int| 0 <= j < i ==> a@[j] == b@[j],
        decreases a.len() - i,
    {
        if a[i] != b[i] {
            return false;
        }
        i = i + 1;
    }
    assert(a@ =~= b@);
    true
}

/// Copies the bytes from `from` up to `to`.
pub fn copy_range(bytes: &Vec<u8>, from: usize, to: usize) -> (r: Vec<u8>)
    requires
        from <= to <= bytes@.len(),
    ensures
        r@ == bytes@.subrange(from as int, to as int),
{
    let mut out: Vec<u8> = Vec::new();
    let mut i: usize = from;
    assert(out@ =~= bytes@.subrange(from as int, from as int));
    while i < to
        invariant
            from <= i <= to <= bytes@.len(),
            out@ == bytes@.subrange(from as int, i as int),
        decreases to - i,
    {
        out.push(bytes[i]);
        assert(out@ =~= bytes@.subrange(from as int, i + 1));
        i = i + 1;
    }
    out
}

impl PathPrefix {
    /// The number of bytes that the prefix is written with.
    pub fn size(&self, bytes: &Vec<u8>) -> (r: usize)
        requires
            windows_prefix(bytes@) == Some(self@),
        ensures
            r == self@.size(),
    {
        let len: usize = bytes.len();
        proof {
            lemma_prefix_size(bytes@);
        }
        assert(self@.size() <= len);
        match self {
            PathPrefix::Disk(_) => 2,
            PathPrefix::Unc(server, share) => 3 + server.len() + share.len(),
            PathPrefix::DeviceNs(name) => 4 + name.len(),
            PathPrefix::Verbatim(name) => 4 + name.len(),
            PathPrefix::VerbatimUnc(server, share) => if share.len() > 0 {
                9 + server.len() + share.len()
            } else {
                8 + server.len()
            },
            PathPrefix::VerbatimDisk(_) => 6,
        }
    }

    /// Whether the prefix is one of the forms that begin with `\\?\`.
    pub fn is_verbatim(&self) -> (r: bool)
        ensures
            r == self@.is_verbatim(),
    {
        match self {
            PathPrefix::Verbatim(_) => true,
            PathPrefix::VerbatimUnc(_, _) => true,
            PathPrefix::VerbatimDisk(_) => true,
            _ => false,
        }
    }

    /// Whether the prefix is a drive.
    pub fn is_disk(&self) -> (r: bool)
        ensures
            r == self@ is Disk,
    {
        match self {
            PathPrefix::Disk(_) => true,
            _ => false,
        }
    }

    /// Whether two prefixes are the same.
    pub fn same_prefix(&self, other: &PathPrefix) -> (r: bool)
        ensures
            r == (self@ == other@),
    {
        match (self, other) {
            (PathPrefix::Disk(a), PathPrefix::Disk(b)) => *a == *b,
            (PathPrefix::Unc(a, c), PathPrefix::Unc(b, d)) => bytes_equal(a, b) && bytes_equal(
                c,
                d,
            ),
            (PathPrefix::DeviceNs(a), PathPrefix::DeviceNs(b)) => bytes_equal(a, b),
            (PathPrefix::Verbatim(a), PathPrefix::Verbatim(b)) => bytes_equal(a, b),
            (PathPrefix::VerbatimUnc(a, c), PathPrefix::VerbatimUnc(b, d)) => bytes_equal(a, b)
                && bytes_equal(c, d),
            (PathPrefix::VerbatimDisk(a), PathPrefix::VerbatimDisk(b)) => *a == *b,
            _ => false,
        }
    }
}

/// Finds the end of the field that begins at `from`.
fn find_field_end(bytes: &Vec<u8>, from: usize, verbatim: bool) -> (r: usize)
    requires
        from <= bytes@.len(),
    ensures
        r == field_end(bytes@, from as int, verbatim),
        from <= r <= bytes@.len(),
{
    let mut i: usize = from;
    while i < bytes.len() && !(bytes[i] == BACKSLASH || (!verbatim && bytes[i] == SLASH))
        invariant
            from <= i <= bytes@.len(),
            field_end(bytes@, i as int, verbatim) == field_end(bytes@, from as int, verbatim),
        decreases bytes.len() - i,
    {
        i = i + 1;
    }
    i
}

/// Whether a byte is either of the separators.
fn byte_is_slash(b: u8) -> (r: bool)
    ensures
        r == is_slash(b),
{
    b == SLASH || b == BACKSLASH
}

/// The letter of the drive at `at`, in upper case.
fn drive_at(bytes: &Vec<u8>, at: usize) -> (r: Option<u8>)
    requires
        at <= 4,
    ensures
        r is Some <==> is_drive(bytes@, at as int),
        r matches Some(letter) ==> letter == upper(bytes@[at as int]),
{
    if bytes.len() < at + 2 || bytes[at + 1] != COLON {
        return None;
    }
    let b = bytes[at];
    if 97 <= b && b <= 122 {
        Some(b - 32)
    } else if 65 <= b && b <= 90 {
        Some(b)
    } else {
        None
    }
}

/// Finds the prefix that bytes begin with.
pub fn find_prefix(bytes: &Vec<u8>) -> (r: Option<PathPrefix>)
    ensures
        r is Some <==> windows_prefix(bytes@) is Some,
        r matches Some(p) ==> p@ == windows_prefix(bytes@)->0,
{
    proof {
        reveal(windows_prefix);
    }
    let len: usize = bytes.len();
    let two = len >= 2 && byte_is_slash(bytes[0]) && byte_is_slash(bytes[1]);
    if !two {
        return match drive_at(bytes, 0) {
            Some(letter) => Some(PathPrefix::Disk(letter)),
            None => None,
        };
    }
    if len >= 4 && bytes[0] == BACKSLASH && bytes[1] == BACKSLASH && bytes[2] == QUESTION_MARK
        && bytes[3] == BACKSLASH {
        if len >= 8 && bytes[4] == 85 && bytes[5] == 78 && bytes[6] == 67 && byte_is_slash(
            bytes[7],
        ) {
            let end = find_field_end(bytes, 8, true);
            let next: usize = if end < len {
                end + 1
            } else {
                len
            };
            let last = find_field_end(bytes, next, true);
            return Some(
                PathPrefix::VerbatimUnc(copy_range(bytes, 8, end), copy_range(bytes, next, last)),
            );
        }
        if len == 6 || (len > 6 && byte_is_slash(bytes[6])) {
            if let Some(letter) = drive_at(bytes, 4) {
                return Some(PathPrefix::VerbatimDisk(letter));
            }
        }
        let end = find_field_end(bytes, 4, true);
        return Some(PathPrefix::Verbatim(copy_range(bytes, 4, end)));
    }
    if len >= 4 && bytes[2] == DOT && byte_is_slash(bytes[3]) {
        let end = find_field_end(bytes, 4, false);
        return Some(PathPrefix::DeviceNs(copy_range(bytes, 4, end)));
    }
    let end = find_field_end(bytes, 2, false);
    let next: usize = if end < len {
        end + 1
    } else {
        len
    };
    let last = find_field_end(bytes, next, false);
    if end > 2 && last > next {
        Some(PathPrefix::Unc(copy_range(bytes, 2, end), copy_range(bytes, next, last)))
    } else {
        None
    }
}

} // verus!
