//! Character-sequence helpers used by the rest of the library: case folding,
//! whitespace trimming, substring search and the lexicographic order of names.

use vstd::prelude::*;

verus! {

/// Code-point-wise lexicographic order on character sequences; this is the
/// order that `String`'s `Ord` gives, since UTF-8 preserves code-point order.
pub open spec fn seq_less(a: Seq<char>, b: Seq<char>) -> bool
    decreases a.len(),
{
    if a.len() == 0 {
        b.len() > 0
    } else if b.len() == 0 {
        false
    } else if (a[0] as int) < (b[0] as int) {
        true
    } else if (a[0] as int) > (b[0] as int) {
        false
    } else {
        seq_less(a.drop_first(), b.drop_first())
    }
}

/// `seq_less` is irreflexive.
pub proof fn lemma_seq_less_irreflexive(a: Seq<char>)
    ensures
        !seq_less(a, a),
    decreases a.len(),
{
    if a.len() > 0 {
        lemma_seq_less_irreflexive(a.drop_first());
    }
}

/// `seq_less` is total on distinct sequences and asymmetric.
pub proof fn lemma_seq_less_total(a: Seq<char>, b: Seq<char>)
    ensures
        a != b ==> (seq_less(a, b) || seq_less(b, a)),
        !(seq_less(a, b) && seq_less(b, a)),
    decreases a.len(),
{
    if a.len() > 0 && b.len() > 0 && (a[0] as int) == (b[0] as int) {
        lemma_seq_less_total(a.drop_first(), b.drop_first());
        if a != b {
            assert(a[0] == b[0]);
            if a.drop_first() == b.drop_first() {
                assert(a =~= seq![a[0]] + a.drop_first());
                assert(b =~= seq![b[0]] + b.drop_first());
            }
        }
    } else if a.len() == 0 && b.len() == 0 {
        assert(a =~= b);
    }
}

/// `seq_less` is transitive.
pub proof fn lemma_seq_less_transitive(a: Seq<char>, b: Seq<char>, c: Seq<char>)
    requires
        seq_less(a, b),
        seq_less(b, c),
    ensures
        seq_less(a, c),
    decreases a.len(),
{
    if a.len() > 0 && b.len() > 0 && c.len() > 0 && (a[0] as int) == (b[0] as int) && (b[0]
        as int) == (c[0] as int) {
        lemma_seq_less_transitive(a.drop_first(), b.drop_first(), c.drop_first());
    }
}

/// Whether `s` reads less than `t` in the order of `seq_less`.
pub fn str_less(s: &str, t: &str) -> (r: bool)
    ensures
        r == seq_less(s@, t@),
{
    let n: usize = s.unicode_len();
    let m: usize = t.unicode_len();
    let mut i: usize = 0;
    assert(s@.skip(0) =~= s@);
    assert(t@.skip(0) =~= t@);
    while i < n && i < m
        invariant
            n == s@.len(),
            m == t@.len(),
            i <= n,
            i <= m,
            seq_less(s@, t@) == seq_less(s@.skip(i as int), t@.skip(i as int)),
        decreases n - i,
    {
        let a: char = s.get_char(i);
        let b: char = t.get_char(i);
        if (a as u32) < (b as u32) {
            return true;
        }
        if (a as u32) > (b as u32) {
            return false;
        }
        assert(s@.skip(i as int).drop_first() =~= s@.skip(i + 1));
        assert(t@.skip(i as int).drop_first() =~= t@.skip(i + 1));
        i = i + 1;
    }
    i == n && i < m
}

/// Whether `needle` occurs as a contiguous part of `hay`.
pub open spec fn seq_contains_seq(hay: Seq<char>, needle: Seq<char>) -> bool {
    exists|i: int|
        0 <= i && i + needle.len() <= hay.len() && #[trigger] hay.subrange(i, i + needle.len())
            == needle
}

/// Whether `prefix` is where `s` starts.
pub open spec fn seq_starts_with(s: Seq<char>, prefix: Seq<char>) -> bool {
    prefix.len() <= s.len() && s.subrange(0, prefix.len() as int) == prefix
}

/// Whether the characters of `s` at `at..at + p.len()` are those of `p`.
fn matches_at(s: &str, p: &str, at: usize, n: usize, m: usize) -> (r: bool)
    requires
        n == s@.len(),
        m == p@.len(),
        at + m <= n,
    ensures
        r == (s@.subrange(at as int, at + m) == p@),
{
    let mut j: usize = 0;
    while j < m
        invariant
            n == s@.len(),
            m == p@.len(),
            at + m <= n,
            j <= m,
            forall|k: int| 0 <= k < j ==> s@[at + k] == p@[k],
        decreases m - j,
    {
        if s.get_char(at + j) != p.get_char(j) {
            assert(s@.subrange(at as int, at + m)[j as int] != p@[j as int]);
            return false;
        }
        j = j + 1;
    }
    assert(s@.subrange(at as int, at + m) =~= p@);
    true
}

/// Whether `prefix` is where `s` starts, as `str::starts_with` with a
/// string pattern.
pub fn starts_with(s: &str, prefix: &str) -> (r: bool)
    ensures
        r == seq_starts_with(s@, prefix@),
{
    let n: usize = s.unicode_len();
    let m: usize = prefix.unicode_len();
    if m > n {
        return false;
    }
    matches_at(s, prefix, 0, n, m)
}

/// Whether `needle` occurs in `hay`, as `str::contains` with a string pattern.
pub fn contains(hay: &str, needle: &str) -> (r: bool)
    ensures
        r == seq_contains_seq(hay@, needle@),
{
    let n: usize = hay.unicode_len();
    let m: usize = needle.unicode_len();
    if m > n {
        return false;
    }
    if m == 0 {
        assert(hay@.subrange(0, 0 + needle@.len() as int) =~= needle@);
        return true;
    }
    let mut i: usize = 0;
    while i <= n - m
        invariant
            n == hay@.len(),
            m == needle@.len(),
            1 <= m <= n,
            i <= n - m + 1,
            forall|k: int|
                0 <= k < i ==> #[trigger] hay@.subrange(k, k + m) != needle@,
        decreases n - m + 1 - i,
    {
        if matches_at(hay, needle, i, n, m) {
            return true;
        }
        i = i + 1;
    }
    false
}

/// The characters that `char::is_whitespace` accepts: those with the Unicode
/// `White_Space` property.
pub open spec fn is_white_space(c: char) -> bool {
    let v = c as int;
    ||| v == 0x20
    ||| 0x09 <= v <= 0x0D
    ||| v == 0x85
    ||| v == 0xA0
    ||| v == 0x1680
    ||| 0x2000 <= v <= 0x200A
    ||| v == 0x2028
    ||| v == 0x2029
    ||| v == 0x202F
    ||| v == 0x205F
    ||| v == 0x3000
}

/// Whether `c` is white space, as `char::is_whitespace`.
pub fn char_is_white_space(c: char) -> (r: bool)
    ensures
        r == is_white_space(c),
{
    let v: u32 = c as u32;
    v == 0x20 || (0x09 <= v && v <= 0x0D) || v == 0x85 || v == 0xA0 || v == 0x1680 || (0x2000
        <= v && v <= 0x200A) || v == 0x2028 || v == 0x2029 || v == 0x202F || v == 0x205F || v
        == 0x3000
}

/// How many white-space characters `s` starts with.
pub open spec fn leading_white_space(s: Seq<char>) -> nat
    decreases s.len(),
{
    if s.len() > 0 && is_white_space(s[0]) {
        1 + leading_white_space(s.drop_first())
    } else {
        0
    }
}

/// How many white-space characters `s` ends with.
pub open spec fn trailing_white_space(s: Seq<char>) -> nat
    decreases s.len(),
{
    if s.len() > 0 && is_white_space(s.last()) {
        1 + trailing_white_space(s.drop_last())
    } else {
        0
    }
}

/// `s` without its leading and trailing white space, as `str::trim` gives it.
pub open spec fn trim_seq(s: Seq<char>) -> Seq<char> {
    let t = s.skip(leading_white_space(s) as int);
    t.take(t.len() - trailing_white_space(t))
}

/// `s` without its leading and trailing white space, as `str::trim`.
pub fn trim(s: &str) -> (r: String)
    ensures
        r@ == trim_seq(s@),
{
    let n: usize = s.unicode_len();
    let mut i: usize = 0;
    assert(s@.skip(0) =~= s@);
    while i < n && char_is_white_space(s.get_char(i))
        invariant
            n == s@.len(),
            i <= n,
            leading_white_space(s@) == i + leading_white_space(s@.skip(i as int)),
        decreases n - i,
    {
        assert(s@.skip(i as int).drop_first() =~= s@.skip(i + 1));
        i = i + 1;
    }
    assert(leading_white_space(s@.skip(i as int)) == 0);
    let ghost t = s@.skip(i as int);
    let mut j: usize = n;
    assert(s@.subrange(i as int, n as int) =~= t);
    while j > i && char_is_white_space(s.get_char(j - 1))
        invariant
            n == s@.len(),
            i <= j <= n,
            t == s@.skip(i as int),
            trailing_white_space(t) == (n - j) + trailing_white_space(
                s@.subrange(i as int, j as int),
            ),
        decreases j,
    {
        assert(s@.subrange(i as int, j as int).drop_last() =~= s@.subrange(i as int, j - 1));
        j = j - 1;
    }
    assert(trailing_white_space(s@.subrange(i as int, j as int)) == 0);
    assert(t.take(t.len() - trailing_white_space(t)) =~= s@.subrange(i as int, j as int));
    s.substring_char(i, j).to_owned()
}

/// The text after the last `'\\'` of `s`, or all of `s` where it has none:
/// what `rsplit('\\').next()` yields.
pub open spec fn last_path_segment(s: Seq<char>) -> Seq<char>
    decreases s.len(),
{
    if s.len() == 0 {
        s
    } else if s.last() == '\\' {
        Seq::empty()
    } else {
        last_path_segment(s.drop_last()).push(s.last())
    }
}

/// The file name at the end of a Windows path: the text after its last
/// backslash, or the whole path where it has none.
pub fn file_name_of(path: &str) -> (r: String)
    ensures
        r@ == last_path_segment(path@),
{
    let n: usize = path.unicode_len();
    let mut j: usize = n;
    assert(path@.subrange(0, n as int) =~= path@);
    assert(path@.subrange(n as int, n as int) =~= Seq::<char>::empty());
    while j > 0 && path.get_char(j - 1) != '\\'
        invariant
            n == path@.len(),
            j <= n,
            last_path_segment(path@) == last_path_segment(path@.subrange(0, j as int))
                + path@.subrange(j as int, n as int),
        decreases j,
    {
        let ghost p = path@.subrange(0, j as int);
        assert(p.drop_last() =~= path@.subrange(0, j - 1));
        assert(last_path_segment(p) == last_path_segment(p.drop_last()).push(p.last()));
        assert(path@.subrange(j - 1, n as int) =~= seq![p.last()] + path@.subrange(
            j as int,
            n as int,
        ));
        assert(last_path_segment(p.drop_last()).push(p.last()) + path@.subrange(j as int, n as int)
            =~= last_path_segment(p.drop_last()) + path@.subrange(j - 1, n as int));
        j = j - 1;
    }
    assert(last_path_segment(path@.subrange(0, j as int)) =~= Seq::<char>::empty());
    assert(Seq::<char>::empty() + path@.subrange(j as int, n as int) =~= path@.subrange(
        j as int,
        n as int,
    ));
    path.substring_char(j, n).to_owned()
}

/// What `str::to_lowercase` gives for a string: its Unicode lowercase mapping,
/// which takes the Unicode tables to state.
pub uninterp spec fn lowercase(s: Seq<char>) -> Seq<char>;

/// Whether two names are the same once both are lowercased: how process
/// names are compared throughout the library.
pub open spec fn same_name(a: Seq<char>, b: Seq<char>) -> bool {
    lowercase(a) == lowercase(b)
}

/// Calls `str::to_lowercase`; the result is `lowercase` of the argument.
#[verifier::external_body]
pub(crate) fn to_lowercase(s: &str) -> (r: String)
    ensures
        r@ == lowercase(s@),
{
    s.to_lowercase()
}

/// Whether `a` and `b` name the same process, ignoring case.
pub fn names_match(a: &str, b: &str) -> (r: bool)
    ensures
        r == same_name(a@, b@),
{
    let la: String = to_lowercase(a);
    let lb: String = to_lowercase(b);
    la == lb
}

/// The decimal digits of `n`, most significant first, with no leading zero.
pub open spec fn decimal_digits(n: nat) -> Seq<char>
    decreases n,
{
    if n < 10 {
        seq![(48 + n) as char]
    } else {
        decimal_digits(n / 10).push((48 + n % 10) as char)
    }
}

/// The label a process gets when its image name cannot be read:
/// `PID:` and the process id in decimal.
pub open spec fn pid_label(pid: u32) -> Seq<char> {
    seq!['P', 'I', 'D', ':'] + decimal_digits(pid as nat)
}

/// The text of one decimal digit.
fn digit_text(d: u32) -> (r: &'static str)
    requires
        d < 10,
    ensures
        r@ == seq![(48 + d) as char],
{
    proof {
        reveal_strlit("0");
        reveal_strlit("1");
        reveal_strlit("2");
        reveal_strlit("3");
        reveal_strlit("4");
        reveal_strlit("5");
        reveal_strlit("6");
        reveal_strlit("7");
        reveal_strlit("8");
        reveal_strlit("9");
    }
    match d {
        0 => "0",
        1 => "1",
        2 => "2",
        3 => "3",
        4 => "4",
        5 => "5",
        6 => "6",
        7 => "7",
        8 => "8",
        _ => "9",
    }
}

/// Appends `n` in decimal to `s`.
fn append_decimal(s: &mut String, n: u32)
    ensures
        final(s)@ == old(s)@ + decimal_digits(n as nat),
    decreases n,
{
    if n >= 10 {
        append_decimal(s, n / 10);
    }
    s.append(digit_text(n % 10));
    proof {
        if n >= 10 {
            assert(old(s)@ + decimal_digits((n / 10) as nat) + seq![(48 + n % 10) as char]
                =~= old(s)@ + decimal_digits((n / 10) as nat).push((48 + n % 10) as char));
        } else {
            assert(old(s)@ + seq![(48 + n % 10) as char] =~= old(s)@ + decimal_digits(n as nat));
        }
    }
}

/// `PID:` followed by the process id in decimal.
pub fn format_pid_label(pid: u32) -> (r: String)
    ensures
        r@ == pid_label(pid),
{
    let mut label: String = String::from_str("PID:");
    proof {
        reveal_strlit("PID:");
    }
    assert(label@ == seq!['P', 'I', 'D', ':']);
    append_decimal(&mut label, pid);
    label
}
/// Whether `s` holds no backslash.
pub open spec fn has_no_backslash(s: Seq<char>) -> bool {
    forall|i: int| 0 <= i < s.len() ==> s[i] != '\\'
}

/// Only a backslash separates path segments: a path without one is its own
/// last segment, and after the last backslash everything up to the end is.
pub proof fn lemma_last_path_segment_after_backslash(dir: Seq<char>, file: Seq<char>)
    requires
        has_no_backslash(file),
    ensures
        last_path_segment(file) == file,
        last_path_segment(dir + seq!['\\'] + file) == file,
    decreases file.len(),
{
    if file.len() > 0 {
        lemma_last_path_segment_after_backslash(dir, file.drop_last());
        assert(file.drop_last().push(file.last()) =~= file);
        assert((dir + seq!['\\'] + file).drop_last() =~= dir + seq!['\\'] + file.drop_last());
        assert((dir + seq!['\\'] + file).last() == file.last());
    } else {
        assert(file =~= Seq::<char>::empty());
        assert((dir + seq!['\\'] + file).last() == '\\');
    }
}

} // verus!
