//! The path transformer: rewrites a source-tree path into its destination
//! form. The source-root prefix is swapped for the destination root, an
//! over-length first segment is split as a `YYYYMM` date code into nested
//! `YYYY/MM` directories, and the file extension is lowercased. A path whose
//! final component has a non-empty extension is classified file-like, the
//! rest directory-like.
use vstd::prelude::*;
use vstd::string::*;

verus! {

/// The pattern `pat` occurs in `s` at position `i`.
pub open spec fn match_at(s: Seq<char>, pat: Seq<char>, i: int) -> bool {
    0 <= i && i + pat.len() <= s.len() && s.subrange(i, i + pat.len() as int) == pat
}

/// The first position at or after `i` where `pat` occurs in `s`, if any.
pub open spec fn find_from(s: Seq<char>, pat: Seq<char>, i: int) -> Option<int>
    decreases s.len() + 1 - i,
{
    if i + pat.len() > s.len() {
        None
    } else if match_at(s, pat, i) {
        Some(i)
    } else {
        find_from(s, pat, i + 1)
    }
}

/// The first position where `pat` occurs in `s`, if any.
pub open spec fn find_first(s: Seq<char>, pat: Seq<char>) -> Option<int> {
    find_from(s, pat, 0)
}

/// `s` with the first occurrence of `pat`, if any, replaced by `repl`.
pub open spec fn replace_first(s: Seq<char>, pat: Seq<char>, repl: Seq<char>) -> Seq<char> {
    match find_first(s, pat) {
        None => s,
        Some(i) => s.take(i) + repl + s.skip(i + pat.len() as int),
    }
}

/// Positions before the first occurrence hold no occurrence.
proof fn lemma_find_from_none(s: Seq<char>, pat: Seq<char>, i: int, j: int)
    requires
        find_from(s, pat, i) is None,
        i <= j,
    ensures
        !match_at(s, pat, j),
    decreases s.len() + 1 - i,
{
    if i + pat.len() <= s.len() && i < j {
        lemma_find_from_none(s, pat, i + 1, j);
    }
}

/// A found position is an occurrence, and the first one at or after `i`.
proof fn lemma_find_from_some(s: Seq<char>, pat: Seq<char>, i: int, r: int)
    requires
        find_from(s, pat, i) == Some(r),
    ensures
        match_at(s, pat, r),
        i <= r,
        forall|j: int| i <= j < r ==> !match_at(s, pat, j),
    decreases s.len() + 1 - i,
{
    if i + pat.len() <= s.len() && !match_at(s, pat, i) {
        lemma_find_from_some(s, pat, i + 1, r);
    }
}

/// The first occurrence of `pat` in `s` at or after position `i`.
fn find_from_exec(s: &str, pat: &str, i: usize) -> (r: Option<usize>)
    requires
        i <= s@.len(),
    ensures
        match r {
            Some(k) => find_from(s@, pat@, i as int) == Some(k as int),
            None => find_from(s@, pat@, i as int) is None,
        },
{
    let n = s.unicode_len();
    let m = pat.unicode_len();
    let mut k = i;
    loop
        invariant
            i <= k <= n,
            n == s@.len(),
            m == pat@.len(),
            find_from(s@, pat@, i as int) == find_from(s@, pat@, k as int),
        decreases n - k,
    {
        if m > n - k {
            assert(find_from(s@, pat@, k as int) is None);
            return None;
        }
        let mut j: usize = 0;
        let mut matched = true;
        while j < m
            invariant
                0 <= j <= m,
                k + m <= n,
                n == s@.len(),
                m == pat@.len(),
                matched ==> forall|t: int| 0 <= t < j ==> s@[k + t] == pat@[t],
                !matched ==> !match_at(s@, pat@, k as int),
            decreases m - j,
        {
            if s.get_char(k + j) != pat.get_char(j) {
                proof {
                    assert(s@.subrange(k as int, k + m as int) != pat@) by {
                        assert(s@.subrange(k as int, k + m as int)[j as int] == s@[k + j]);
                    }
                }
                matched = false;
                j = m;
            } else {
                j = j + 1;
            }
        }
        if matched {
            proof {
                assert(s@.subrange(k as int, k + m as int) =~= pat@);
            }
            return Some(k);
        }
        proof {
            if m == 0 {
                assert(s@.subrange(k as int, k as int) =~= pat@);
            }
            assert(find_from(s@, pat@, k as int) == find_from(s@, pat@, k + 1));
        }
        k = k + 1;
    }
}

/// `s` with the first occurrence of `pat`, if any, replaced by `repl`.
pub(crate) fn replace_first_exec(s: &str, pat: &str, repl: &str) -> (r: String)
    ensures
        r@ == replace_first(s@, pat@, repl@),
{
    match find_from_exec(s, pat, 0) {
        None => String::from_str(s),
        Some(i) => {
            let n = s.unicode_len();
            let m = pat.unicode_len();
            proof {
                lemma_find_from_some(s@, pat@, 0, i as int);
            }
            let mut out = String::from_str(s.substring_char(0, i));
            out.append(repl);
            out.append(s.substring_char(i + m, n));
            proof {
                assert(out@ =~= s@.take(i as int) + repl@ + s@.skip(i + m as int));
            }
            out
        },
    }
}

/// The rewritten path is long enough that its first segment is taken for a
/// legacy `YYYYMM` date code plus two filler characters, to be split.
pub open spec fn splice_applies(s: Seq<char>, dest_len: int) -> bool {
    s.len() > dest_len + 5
}

/// The fixed-offset date split stays within the path: a path longer than the
/// destination root plus five characters must carry the full eight-character
/// date segment for the two filler characters to be removed.
pub open spec fn splice_safe(s: Seq<char>, dest_len: int) -> bool {
    s.len() <= dest_len + 5 || s.len() >= dest_len + 9
}

/// The date-hierarchy split: in an over-length path, a `/` is inserted after
/// the four year digits and the two filler characters after the month digits
/// are dropped, turning `ROOT/YYYYMMff...` into `ROOT/YYYY/MM...`.
pub open spec fn spliced(s: Seq<char>, dest_len: int) -> Seq<char> {
    if splice_applies(s, dest_len) {
        let cut = dest_len + 5;
        s.take(cut) + seq!['/'] + s.subrange(cut, cut + 2) + s.skip(cut + 4)
    } else {
        s
    }
}

/// Where the extension of the final path component begins: one past its last
/// `.`, or nothing when the component holds no `.` at all.
pub open spec fn ext_begin(s: Seq<char>) -> Option<int>
    decreases s.len(),
{
    if s.len() == 0 {
        None
    } else if s.last() == '.' {
        Some(s.len() as int)
    } else if s.last() == '/' {
        None
    } else {
        ext_begin(s.drop_last())
    }
}

/// A found extension start lies inside the path.
proof fn lemma_ext_begin_bounds(s: Seq<char>, i: int)
    requires
        ext_begin(s) == Some(i),
    ensures
        0 < i <= s.len(),
    decreases s.len(),
{
    if s.len() > 0 && s.last() != '.' && s.last() != '/' {
        lemma_ext_begin_bounds(s.drop_last(), i);
    }
}

/// The extension of the final path component: what follows its last `.`,
/// empty when there is none.
pub open spec fn ext_of(s: Seq<char>) -> Seq<char> {
    match ext_begin(s) {
        None => Seq::empty(),
        Some(i) => s.skip(i),
    }
}

/// What `str::to_lowercase` returns: a function of the characters alone.
pub uninterp spec fn lower_of(s: Seq<char>) -> Seq<char>;

/// What `str::to_uppercase` returns: a function of the characters alone.
pub uninterp spec fn upper_of(s: Seq<char>) -> Seq<char>;

/// Relies on str::to_lowercase: the result depends on the characters alone,
/// in every process and on every machine.
#[verifier::external_body]
pub(crate) fn to_lowercase_str(s: &str) -> (r: String)
    ensures
        r@ == lower_of(s@),
{
    s.to_lowercase()
}

/// Relies on str::to_uppercase: the result depends on the characters alone,
/// in every process and on every machine.
#[verifier::external_body]
pub(crate) fn to_uppercase_str(s: &str) -> (r: String)
    ensures
        r@ == upper_of(s@),
{
    s.to_uppercase()
}

/// The path rebased from the source root onto the destination root, date
/// split applied: steps one and two of the transform.
pub open spec fn rebased(entry: Seq<char>, source: Seq<char>, destination: Seq<char>) -> Seq<char> {
    spliced(replace_first(entry, source, destination), destination.len() as int)
}

/// The full transform: rebase, date split, and the extension of the final
/// component lowercased.
pub open spec fn transform_spec(
    entry: Seq<char>,
    source: Seq<char>,
    destination: Seq<char>,
) -> Seq<char> {
    let m = rebased(entry, source, destination);
    match ext_begin(m) {
        Some(i) => if i < m.len() {
            m.take(i) + lower_of(m.skip(i))
        } else {
            m
        },
        None => m,
    }
}

/// The classification: a non-empty extension makes the path file-like.
pub open spec fn is_file_like(entry: Seq<char>, source: Seq<char>, destination: Seq<char>) -> bool {
    ext_of(rebased(entry, source, destination)).len() > 0
}

/// Character-for-character string equality.
pub(crate) fn str_eq(a: &str, b: &str) -> (r: bool)
    ensures
        r == (a@ == b@),
{
    let n = a.unicode_len();
    let m = b.unicode_len();
    if n != m {
        return false;
    }
    let mut i: usize = 0;
    while i < n
        invariant
            0 <= i <= n,
            n == a@.len(),
            n == b@.len(),
            forall|j: int| 0 <= j < i ==> a@[j] == b@[j],
        decreases n - i,
    {
        if a.get_char(i) != b.get_char(i) {
            return false;
        }
        i = i + 1;
    }
    proof {
        assert(a@ =~= b@);
    }
    true
}

/// The sidecar marker: phone-generated edit-metadata files carry `.aae`
/// (after extension lowercasing) somewhere in their path.
pub open spec fn sidecar_marker() -> Seq<char> {
    seq!['.', 'a', 'a', 'e']
}

/// The path contains the sidecar marker `.aae`.
pub open spec fn contains_sidecar(s: Seq<char>) -> bool {
    exists|i: int| match_at(s, sidecar_marker(), i)
}

/// Whether the path contains the sidecar marker `.aae`.
pub(crate) fn contains_sidecar_exec(s: &str) -> (b: bool)
    ensures
        b == contains_sidecar(s@),
{
    let pat = ".aae";
    proof {
        reveal_strlit(".aae");
        assert(pat@ =~= sidecar_marker());
    }
    match find_from_exec(s, pat, 0) {
        Some(i) => {
            proof {
                lemma_find_from_some(s@, pat@, 0, i as int);
            }
            true
        },
        None => {
            proof {
                assert forall|j: int| !match_at(s@, sidecar_marker(), j) by {
                    if j >= 0 {
                        lemma_find_from_none(s@, pat@, 0, j);
                    }
                }
            }
            false
        },
    }
}

/// Where the final component of the path begins: one past the last `/`, or
/// the start when there is none.
pub open spec fn name_begin(s: Seq<char>) -> int
    decreases s.len(),
{
    if s.len() == 0 {
        0
    } else if s.last() == '/' {
        s.len() as int
    } else {
        name_begin(s.drop_last())
    }
}

/// The file name: the final component of the path, directories stripped.
pub open spec fn name_of(s: Seq<char>) -> Seq<char> {
    s.skip(name_begin(s))
}

/// The file name of the path: its final component.
pub(crate) fn file_name(s: &str) -> (r: String)
    ensures
        r@ == name_of(s@),
{
    let n = s.unicode_len();
    let mut i = n;
    proof {
        assert(s@.take(n as int) =~= s@);
    }
    loop
        invariant
            0 <= i <= n,
            n == s@.len(),
            name_begin(s@) == name_begin(s@.take(i as int)),
        decreases i,
    {
        if i == 0 {
            let r = String::from_str(s);
            proof {
                assert(s@.skip(0) =~= s@);
            }
            return r;
        }
        let c = s.get_char(i - 1);
        proof {
            assert(s@.take(i as int).last() == s@[i - 1]);
            assert(s@.take(i as int).drop_last() =~= s@.take(i - 1));
        }
        if c == '/' {
            let r = String::from_str(s.substring_char(i, n));
            return r;
        }
        i = i - 1;
    }
}

/// In a path ending `...` + `.` + `e`, with `e` free of `.` and `/`, the
/// extension begins right after that dot.
proof fn lemma_ext_begin_append(a: Seq<char>, e: Seq<char>)
    requires
        forall|i: int| 0 <= i < e.len() ==> e[i] != '.' && e[i] != '/',
    ensures
        ext_begin(a.push('.') + e) == Some(a.len() + 1 as int),
    decreases e.len(),
{
    let s = a.push('.') + e;
    if e.len() == 0 {
        assert(s =~= a.push('.'));
        assert(s.last() == '.');
    } else {
        assert(s.last() == e.last());
        assert(s.drop_last() =~= a.push('.') + e.drop_last());
        lemma_ext_begin_append(a, e.drop_last());
    }
}

/// A path whose final component `e` holds no dot has no extension.
proof fn lemma_ext_begin_after_slash(a: Seq<char>, e: Seq<char>)
    requires
        forall|i: int| 0 <= i < e.len() ==> e[i] != '.' && e[i] != '/',
    ensures
        ext_begin(a.push('/') + e) is None,
    decreases e.len(),
{
    let s = a.push('/') + e;
    if e.len() == 0 {
        assert(s =~= a.push('/'));
        assert(s.last() == '/');
    } else {
        assert(s.last() == e.last());
        assert(s.drop_last() =~= a.push('/') + e.drop_last());
        lemma_ext_begin_after_slash(a, e.drop_last());
    }
}

/// Where the extension of the final component of `s` begins, if anywhere.
fn ext_begin_exec(s: &str) -> (r: Option<usize>)
    ensures
        match r {
            Some(i) => ext_begin(s@) == Some(i as int),
            None => ext_begin(s@) is None,
        },
{
    let n = s.unicode_len();
    let mut i = n;
    proof {
        assert(s@.take(n as int) =~= s@);
    }
    loop
        invariant
            0 <= i <= n,
            n == s@.len(),
            ext_begin(s@) == ext_begin(s@.take(i as int)),
        decreases i,
    {
        if i == 0 {
            return None;
        }
        let c = s.get_char(i - 1);
        proof {
            assert(s@.take(i as int).last() == s@[i - 1]);
            assert(s@.take(i as int).drop_last() =~= s@.take(i - 1));
        }
        if c == '.' {
            return Some(i);
        }
        if c == '/' {
            return None;
        }
        i = i - 1;
    }
}

/// Whether the fixed-offset date split is defined on `entry` once rebased:
/// the transform's one precondition, for callers to test first.
pub fn transform_defined(entry: &str, source: &str, destination: &str) -> (b: bool)
    ensures
        b == splice_safe(replace_first(entry@, source@, destination@), destination@.len() as int),
{
    let s1 = replace_first_exec(entry, source, destination);
    let n1 = s1.as_str().unicode_len();
    let d = destination.unicode_len();
    n1 <= d || n1 - d <= 5 || n1 - d >= 9
}

/// The path transformer: computes the destination path for `entry` and its
/// classification (`true` for file-like, `false` for directory-like).
pub fn transform_path(entry: &str, source: &str, destination: &str) -> (r: (String, bool))
    requires
        splice_safe(replace_first(entry@, source@, destination@), destination@.len() as int),
    ensures
        r.0@ == transform_spec(entry@, source@, destination@),
        r.1 == is_file_like(entry@, source@, destination@),
{
    let s1 = replace_first_exec(entry, source, destination);
    let n1 = s1.as_str().unicode_len();
    let d = destination.unicode_len();
    let m: String = if n1 > d && n1 - d > 5 {
        let cut = d + 5;
        let mut t = String::from_str(s1.as_str().substring_char(0, cut));
        t.append("/");
        t.append(s1.as_str().substring_char(cut, cut + 2));
        t.append(s1.as_str().substring_char(cut + 4, n1));
        proof {
            reveal_strlit("/");
            assert("/"@ =~= seq!['/']);
            assert(t@ =~= spliced(s1@, d as int));
        }
        t
    } else {
        s1
    };
    let ghost mseq = rebased(entry@, source@, destination@);
    assert(m@ == mseq);
    match ext_begin_exec(m.as_str()) {
        None => (m, false),
        Some(i) => {
            let mlen = m.as_str().unicode_len();
            if i < mlen {
                let ext = m.as_str().substring_char(i, mlen);
                proof {
                    assert(ext@ =~= mseq.skip(i as int));
                }
                let low = to_lowercase_str(ext);
                let mut out = String::from_str(m.as_str().substring_char(0, i));
                out.append(low.as_str());
                proof {
                    assert(out@ =~= mseq.take(i as int) + lower_of(mseq.skip(i as int)));
                }
                (out, true)
            } else {
                proof {
                    lemma_ext_begin_bounds(mseq, i as int);
                    assert(mseq.skip(i as int) =~= Seq::<char>::empty());
                }
                (m, false)
            }
        },
    }
}

/// A source entry following the backup convention: the source root, a
/// date-coded directory (six digits and two filler characters), and a file
/// name with an extension.
pub open spec fn dated_file_entry(
    source: Seq<char>,
    seg: Seq<char>,
    stem: Seq<char>,
    ext: Seq<char>,
) -> Seq<char> {
    source + seq!['/'] + seg + seq!['/'] + stem + seq!['.'] + ext
}

/// The canonical destination for such an entry:
/// `DESTINATION/YYYY/MM/NAME.ext`, the extension lowercased.
pub open spec fn dated_file_target(
    destination: Seq<char>,
    seg: Seq<char>,
    stem: Seq<char>,
    ext: Seq<char>,
) -> Seq<char> {
    destination + seq!['/'] + seg.take(4) + seq!['/'] + seg.subrange(4, 6) + seq!['/'] + stem
        + seq!['.'] + lower_of(ext)
}

/// Every file of a conventionally named source directory lands at exactly
/// `DESTINATION/YYYY/MM/NAME.ext`: year and month come from the leading six
/// characters of the parent directory's name, the extension is lowercased,
/// and the entry is classified file-like, so the plan copies it.
pub proof fn lemma_transform_dated_file(
    source: Seq<char>,
    destination: Seq<char>,
    seg: Seq<char>,
    stem: Seq<char>,
    ext: Seq<char>,
)
    requires
        seg.len() == 8,
        ext.len() > 0,
        forall|i: int| 0 <= i < ext.len() ==> ext[i] != '.' && ext[i] != '/',
    ensures
        transform_spec(dated_file_entry(source, seg, stem, ext), source, destination)
            == dated_file_target(destination, seg, stem, ext),
        is_file_like(dated_file_entry(source, seg, stem, ext), source, destination),
{
    let entry = dated_file_entry(source, seg, stem, ext);
    let dlen = destination.len() as int;
    assert(entry.subrange(0, source.len() as int) =~= source);
    assert(match_at(entry, source, 0));
    assert(find_first(entry, source) == Some(0int));
    let replaced = replace_first(entry, source, destination);
    assert(replaced =~= destination + seq!['/'] + seg + seq!['/'] + stem + seq!['.'] + ext);
    let cut = dlen + 5;
    let m = spliced(replaced, dlen);
    let a = destination + seq!['/'] + seg.take(4) + seq!['/'] + seg.subrange(4, 6) + seq!['/']
        + stem;
    assert(replaced.take(cut) =~= destination + seq!['/'] + seg.take(4));
    assert(replaced.subrange(cut, cut + 2) =~= seg.subrange(4, 6));
    assert(replaced.skip(cut + 4) =~= seq!['/'] + stem + seq!['.'] + ext);
    assert(m =~= a.push('.') + ext);
    lemma_ext_begin_append(a, ext);
    let i = a.len() as int + 1;
    assert(m.take(i) =~= a + seq!['.']);
    assert(m.skip(i) =~= ext);
    assert(m.take(i) + lower_of(ext) =~= dated_file_target(destination, seg, stem, ext));
}

/// The conventionally named directory itself lands at `DESTINATION/YYYY/MM`.
pub open spec fn dated_dir_target(destination: Seq<char>, seg: Seq<char>) -> Seq<char> {
    destination + seq!['/'] + seg.take(4) + seq!['/'] + seg.subrange(4, 6)
}

/// A conventionally named source directory becomes the nested `YYYY/MM`
/// destination directory pair, classified directory-like, so the plan
/// creates it rather than copying.
pub proof fn lemma_transform_dated_dir(source: Seq<char>, destination: Seq<char>, seg: Seq<char>)
    requires
        seg.len() == 8,
        forall|i: int| 0 <= i < seg.len() ==> seg[i] != '.' && seg[i] != '/',
    ensures
        transform_spec(source + seq!['/'] + seg, source, destination) == dated_dir_target(
            destination,
            seg,
        ),
        !is_file_like(source + seq!['/'] + seg, source, destination),
{
    let entry = source + seq!['/'] + seg;
    let dlen = destination.len() as int;
    assert(entry.subrange(0, source.len() as int) =~= source);
    assert(match_at(entry, source, 0));
    assert(find_first(entry, source) == Some(0int));
    let replaced = replace_first(entry, source, destination);
    assert(replaced =~= destination + seq!['/'] + seg);
    let cut = dlen + 5;
    let m = spliced(replaced, dlen);
    let a = destination + seq!['/'] + seg.take(4);
    assert(replaced.take(cut) =~= destination + seq!['/'] + seg.take(4));
    assert(replaced.subrange(cut, cut + 2) =~= seg.subrange(4, 6));
    assert(replaced.skip(cut + 4) =~= Seq::<char>::empty());
    assert(m =~= a.push('/') + seg.subrange(4, 6));
    assert(forall|i: int|
        0 <= i < seg.subrange(4, 6).len() ==> seg.subrange(4, 6)[i] != '.' && seg.subrange(
            4,
            6,
        )[i] != '/');
    lemma_ext_begin_after_slash(a, seg.subrange(4, 6));
    assert(m =~= dated_dir_target(destination, seg));
}

} // verus!
