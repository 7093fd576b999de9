//! Character-level path text: whitespace trimming, separator normalisation,
//! pattern removal, extensions and basenames, all over `Seq<char>`.

use vstd::prelude::*;

verus! {

/// Whether `c` is white space in the Unicode sense, as `char::is_whitespace` decides it.
pub open spec fn is_space(c: char) -> bool {
    let u = c as u32;
    (0x09 <= u && u <= 0x0D) || u == 0x20 || u == 0x85 || u == 0xA0 || u == 0x1680
        || (0x2000 <= u && u <= 0x200A) || u == 0x2028 || u == 0x2029 || u == 0x202F
        || u == 0x205F || u == 0x3000
}

/// `s` without its leading characters that satisfy `f`.
pub open spec fn skip_front(s: Seq<char>, f: spec_fn(char) -> bool) -> Seq<char>
    decreases s.len(),
{
    if s.len() > 0 && f(s[0]) { skip_front(s.drop_first(), f) } else { s }
}

/// `s` without its trailing characters that satisfy `f`.
pub open spec fn skip_back(s: Seq<char>, f: spec_fn(char) -> bool) -> Seq<char>
    decreases s.len(),
{
    if s.len() > 0 && f(s.last()) { skip_back(s.drop_last(), f) } else { s }
}

/// The white-space test as a predicate.
pub open spec fn space_pred() -> spec_fn(char) -> bool {
    |c: char| is_space(c)
}

/// The slash test as a predicate.
pub open spec fn slash_pred() -> spec_fn(char) -> bool {
    |c: char| c == '/'
}

/// `s` without leading and trailing white space.
pub open spec fn trim(s: Seq<char>) -> Seq<char> {
    skip_back(skip_front(s, space_pred()), space_pred())
}

/// `s` with every backslash turned into a slash.
pub open spec fn forward_slashes(s: Seq<char>) -> Seq<char> {
    s.map_values(|c: char| if c == '\\' { '/' } else { c })
}

/// `s` with the occurrences of `p` removed, scanning from the left and
/// taking non-overlapping occurrences, as `str::replace(p, "")` does.
pub open spec fn remove_all(s: Seq<char>, p: Seq<char>) -> Seq<char>
    decreases s.len(),
{
    if s.len() == 0 {
        s
    } else if 0 < p.len() <= s.len() && s.subrange(0, p.len() as int) == p {
        remove_all(s.subrange(p.len() as int, s.len() as int), p)
    } else {
        seq![s[0]] + remove_all(s.drop_first(), p)
    }
}

/// Whether `p` occurs in `s`.
pub open spec fn occurs_in(p: Seq<char>, s: Seq<char>) -> bool {
    exists|i: int| 0 <= i && i + p.len() <= s.len() && #[trigger] s.subrange(i, i + p.len()) == p
}

/// Index of the last occurrence of `c` in `s`, or -1.
pub open spec fn last_index(s: Seq<char>, c: char) -> int
    decreases s.len(),
{
    if s.len() == 0 {
        -1
    } else if s.last() == c {
        s.len() - 1
    } else {
        last_index(s.drop_last(), c)
    }
}

/// `s` without its extension: the text from the last `.` on, where that dot
/// stands after the last `/`.
pub open spec fn strip_extension(s: Seq<char>) -> Seq<char> {
    let d = last_index(s, '.');
    if d >= 0 && d > last_index(s, '/') { s.subrange(0, d) } else { s }
}

/// The last `/`-separated segment of `s`.
pub open spec fn basename(s: Seq<char>) -> Seq<char> {
    s.subrange(last_index(s, '/') + 1, s.len() as int)
}

/// Whether `t` ends with `s`.
pub open spec fn ends_with(t: Seq<char>, s: Seq<char>) -> bool {
    s.len() <= t.len() && t.subrange(t.len() - s.len(), t.len() as int) == s
}

/// The characters of `s`.
pub fn chars_of(s: &str) -> (r: Vec<char>)
    ensures
        r@ == s@,
{
    let n = s.unicode_len();
    let mut out: Vec<char> = Vec::new();
    let mut i: usize = 0;
    while i < n
        invariant
            n == s@.len(),
            i <= n,
            out@ == s@.subrange(0, i as int),
        decreases n - i,
    {
        out.push(s.get_char(i));
        i = i + 1;
    }
    out
}

/// Relies on `String`'s `FromIterator<&char>`: the string of the characters, in order.
#[verifier::external_body]
pub(crate) fn string_of(v: &Vec<char>) -> (r: String)
    ensures
        r@ == v@,
{
    v.iter().collect()
}

/// `a` followed by `b`.
pub fn concat(a: &Vec<char>, b: &Vec<char>) -> (r: Vec<char>)
    ensures
        r@ == a@ + b@,
{
    let mut out: Vec<char> = Vec::new();
    let mut i: usize = 0;
    while i < a.len()
        invariant
            i <= a@.len(),
            out@ == a@.subrange(0, i as int),
        decreases a.len() - i,
    {
        out.push(a[i]);
        i = i + 1;
    }
    let mut j: usize = 0;
    while j < b.len()
        invariant
            j <= b@.len(),
            out@ == a@ + b@.subrange(0, j as int),
        decreases b.len() - j,
    {
        out.push(b[j]);
        j = j + 1;
    }
    assert(a@.subrange(0, a@.len() as int) == a@);
    assert(b@.subrange(0, b@.len() as int) == b@);
    out
}

/// The characters `s[from..to]`.
fn slice_of(s: &Vec<char>, from: usize, to: usize) -> (r: Vec<char>)
    requires
        from <= to <= s@.len(),
    ensures
        r@ == s@.subrange(from as int, to as int),
{
    let mut out: Vec<char> = Vec::new();
    let mut i: usize = from;
    while i < to
        invariant
            from <= i <= to,
            to <= s@.len(),
            out@ == s@.subrange(from as int, i as int),
        decreases to - i,
    {
        out.push(s[i]);
        i = i + 1;
    }
    out
}

fn is_space_char(c: char) -> (r: bool)
    ensures
        r == is_space(c),
{
    let u = c as u32;
    (0x09 <= u && u <= 0x0D) || u == 0x20 || u == 0x85 || u == 0xA0 || u == 0x1680
        || (0x2000 <= u && u <= 0x200A) || u == 0x2028 || u == 0x2029 || u == 0x202F
        || u == 0x205F || u == 0x3000
}

/// `s` without leading and trailing white space.
pub fn trim_chars(s: &Vec<char>) -> (r: Vec<char>)
    ensures
        r@ == trim(s@),
{
    let ghost f = space_pred();
    let n = s.len();
    assert(s@.subrange(0, n as int) == s@);
    let mut a: usize = 0;
    while a < n && is_space_char(s[a])
        invariant
            a <= n == s@.len(),
            f == space_pred(),
            skip_front(s@.subrange(a as int, n as int), f) == skip_front(s@, f),
        decreases n - a,
    {
        assert(s@.subrange(a as int, n as int).drop_first() == s@.subrange(a + 1, n as int));
        assert(s@.subrange(a as int, n as int)[0] == s@[a as int]);
        a = a + 1;
    }
    assert(skip_front(s@.subrange(a as int, n as int), f) == s@.subrange(a as int, n as int));
    let ghost front = s@.subrange(a as int, n as int);
    let mut b: usize = n;
    while b > a && is_space_char(s[b - 1])
        invariant
            a <= b <= n == s@.len(),
            f == space_pred(),
            front == s@.subrange(a as int, n as int),
            skip_back(s@.subrange(a as int, b as int), f) == skip_back(front, f),
        decreases b,
    {
        assert(s@.subrange(a as int, b as int).drop_last() == s@.subrange(a as int, b - 1));
        assert(s@.subrange(a as int, b as int).last() == s@[b - 1]);
        b = b - 1;
    }
    assert(skip_back(s@.subrange(a as int, b as int), f) == s@.subrange(a as int, b as int));
    slice_of(s, a, b)
}

/// `s` with every backslash turned into a slash.
pub fn forward_slash_chars(s: &Vec<char>) -> (r: Vec<char>)
    ensures
        r@ == forward_slashes(s@),
{
    let mut out: Vec<char> = Vec::new();
    let mut i: usize = 0;
    while i < s.len()
        invariant
            i <= s@.len(),
            out@ == forward_slashes(s@.subrange(0, i as int)),
        decreases s.len() - i,
    {
        let c = s[i];
        out.push(if c == '\\' { '/' } else { c });
        assert(s@.subrange(0, i + 1) == s@.subrange(0, i as int).push(c));
        i = i + 1;
    }
    assert(s@.subrange(0, s@.len() as int) == s@);
    out
}

/// Whether `p` occurs in `s` at position `i`.
fn occurs_at(s: &Vec<char>, i: usize, p: &Vec<char>) -> (r: bool)
    requires
        i <= s@.len(),
    ensures
        r == (i + p@.len() <= s@.len() && s@.subrange(i as int, i + p@.len()) == p@),
{
    if p.len() > s.len() - i {
        return false;
    }
    let mut k: usize = 0;
    while k < p.len()
        invariant
            k <= p@.len(),
            i <= s@.len(),
            i + p@.len() <= s@.len(),
            s@.subrange(i as int, i + k) == p@.subrange(0, k as int),
        decreases p.len() - k,
    {
        assert(i + k < s.len());
        if s[i + k] != p[k] {
            assert(s@.subrange(i as int, i + p@.len())[k as int] != p@[k as int]);
            return false;
        }
        assert(s@.subrange(i as int, i + k + 1) == s@.subrange(i as int, i + k).push(s@[i + k]));
        assert(p@.subrange(0, k + 1) == p@.subrange(0, k as int).push(p@[k as int]));
        k = k + 1;
    }
    assert(p@.subrange(0, p@.len() as int) == p@);
    true
}

/// `s` with the occurrences of `p` removed, left to right and non-overlapping.
pub fn remove_all_chars(s: &Vec<char>, p: &Vec<char>) -> (r: Vec<char>)
    requires
        p@.len() > 0,
    ensures
        r@ == remove_all(s@, p@),
{
    let n = s.len();
    assert(s@.subrange(0, n as int) == s@);
    let mut out: Vec<char> = Vec::new();
    let mut i: usize = 0;
    while i < n
        invariant
            i <= n == s@.len(),
            p@.len() > 0,
            out@ + remove_all(s@.subrange(i as int, n as int), p@) == remove_all(s@, p@),
        decreases n - i,
    {
        let ghost rest = s@.subrange(i as int, n as int);
        if occurs_at(s, i, p) {
            assert(rest.subrange(0, p@.len() as int) == s@.subrange(i as int, i + p@.len()));
            assert(rest.subrange(p@.len() as int, rest.len() as int) == s@.subrange(i + p@.len(), n as int));
            i = i + p.len();
        } else {
            assert(!(p@.len() <= rest.len() && rest.subrange(0, p@.len() as int) == p@)) by {
                if p@.len() <= rest.len() {
                    assert(rest.subrange(0, p@.len() as int) == s@.subrange(i as int, i + p@.len()));
                }
            }
            assert(rest.drop_first() == s@.subrange(i + 1, n as int));
            let ghost old_out = out@;
            out.push(s[i]);
            assert(out@ == old_out + seq![rest[0]]);
            assert(out@ + remove_all(rest.drop_first(), p@) == old_out + (seq![rest[0]] + remove_all(rest.drop_first(), p@)));
            i = i + 1;
        }
    }
    assert(remove_all(s@.subrange(n as int, n as int), p@) == Seq::<char>::empty());
    assert(out@ + Seq::<char>::empty() == out@);
    out
}

/// `s` without its leading slashes.
pub fn skip_leading_slashes(s: &Vec<char>) -> (r: Vec<char>)
    ensures
        r@ == skip_front(s@, slash_pred()),
{
    let ghost f = slash_pred();
    let n = s.len();
    assert(s@.subrange(0, n as int) == s@);
    let mut a: usize = 0;
    while a < n && s[a] == '/'
        invariant
            a <= n == s@.len(),
            f == slash_pred(),
            skip_front(s@.subrange(a as int, n as int), f) == skip_front(s@, f),
        decreases n - a,
    {
        assert(s@.subrange(a as int, n as int).drop_first() == s@.subrange(a + 1, n as int));
        assert(s@.subrange(a as int, n as int)[0] == s@[a as int]);
        a = a + 1;
    }
    assert(skip_front(s@.subrange(a as int, n as int), f) == s@.subrange(a as int, n as int));
    slice_of(s, a, n)
}

/// Index of the last occurrence of `c` in `s`, if any.
fn find_last(s: &Vec<char>, c: char) -> (r: Option<usize>)
    ensures
        r matches Some(i) ==> i == last_index(s@, c),
        r is None ==> last_index(s@, c) == -1,
{
    let mut k: usize = s.len();
    assert(s@.subrange(0, k as int) == s@);
    while k > 0
        invariant
            k <= s@.len(),
            last_index(s@, c) == last_index(s@.subrange(0, k as int), c),
        decreases k,
    {
        if s[k - 1] == c {
            return Some(k - 1);
        }
        assert(s@.subrange(0, k as int).drop_last() == s@.subrange(0, k - 1));
        k = k - 1;
    }
    None
}

/// `s` without its extension.
pub fn strip_extension_chars(s: &Vec<char>) -> (r: Vec<char>)
    ensures
        r@ == strip_extension(s@),
{
    proof { lemma_last_index_range(s@, '.'); lemma_last_index_range(s@, '/'); }
    match find_last(s, '.') {
        Some(d) => {
            let after_slash = match find_last(s, '/') {
                Some(sl) => d > sl,
                None => true,
            };
            if after_slash {
                slice_of(s, 0, d)
            } else {
                slice_of(s, 0, s.len())
            }
        },
        None => slice_of(s, 0, s.len()),
    }
}

/// The last `/`-separated segment of `s`.
pub fn basename_chars(s: &Vec<char>) -> (r: Vec<char>)
    ensures
        r@ == basename(s@),
{
    proof { lemma_last_index_range(s@, '/'); }
    match find_last(s, '/') {
        Some(sl) => {
            assert(sl < s.len());
            slice_of(s, sl + 1, s.len())
        },
        None => slice_of(s, 0, s.len()),
    }
}

/// Whether `t` ends with `s`.
pub fn ends_with_chars(t: &Vec<char>, s: &Vec<char>) -> (r: bool)
    ensures
        r == ends_with(t@, s@),
{
    if s.len() > t.len() {
        false
    } else {
        occurs_at(t, t.len() - s.len(), s)
    }
}

proof fn lemma_last_index_range(s: Seq<char>, c: char)
    ensures
        -1 <= last_index(s, c) < s.len(),
        last_index(s, c) >= 0 ==> s[last_index(s, c)] == c,
    decreases s.len(),
{
    if s.len() > 0 && s.last() != c {
        lemma_last_index_range(s.drop_last(), c);
    }
}

/// Removing a pattern adds no character: one absent from `s` stays absent.
pub proof fn lemma_remove_all_absent_char(s: Seq<char>, p: Seq<char>, c: char)
    requires
        !s.contains(c),
    ensures
        !remove_all(s, p).contains(c),
    decreases s.len(),
{
    if s.len() > 0 {
        if 0 < p.len() <= s.len() && s.subrange(0, p.len() as int) == p {
            let t = s.subrange(p.len() as int, s.len() as int);
            assert forall|i: int| 0 <= i < t.len() implies t[i] != c by {
                assert(t[i] == s[i + p.len()]);
            }
            lemma_remove_all_absent_char(t, p, c);
        } else {
            let t = s.drop_first();
            assert forall|i: int| 0 <= i < t.len() implies t[i] != c by {
                assert(t[i] == s[i + 1]);
            }
            lemma_remove_all_absent_char(t, p, c);
            let r = seq![s[0]] + remove_all(t, p);
            assert forall|i: int| 0 <= i < r.len() implies r[i] != c by {
                if i > 0 {
                    assert(r[i] == remove_all(t, p)[i - 1]);
                }
            }
        }
    }
}

/// A string in which the pattern does not occur is left as it is.
pub proof fn lemma_remove_all_unchanged(s: Seq<char>, p: Seq<char>)
    requires
        p.len() > 0,
        !occurs_in(p, s),
    ensures
        remove_all(s, p) == s,
    decreases s.len(),
{
    if s.len() > 0 {
        if p.len() <= s.len() && s.subrange(0, p.len() as int) == p {
            assert(s.subrange(0, 0 + p.len() as int) == p);
        }
        let t = s.drop_first();
        assert(!occurs_in(p, t)) by {
            if occurs_in(p, t) {
                let i = choose|i: int| 0 <= i && i + p.len() <= t.len() && #[trigger] t.subrange(i, i + p.len()) == p;
                assert(s.subrange(i + 1, i + 1 + p.len()) == t.subrange(i, i + p.len()));
            }
        }
        lemma_remove_all_unchanged(t, p);
        assert(seq![s[0]] + t == s);
    }
}

/// Skipping a prefix adds no character.
pub proof fn lemma_skip_front_absent_char(s: Seq<char>, f: spec_fn(char) -> bool, c: char)
    requires
        !s.contains(c),
    ensures
        !skip_front(s, f).contains(c),
    decreases s.len(),
{
    if s.len() > 0 && f(s[0]) {
        let t = s.drop_first();
        assert forall|i: int| 0 <= i < t.len() implies t[i] != c by {
            assert(t[i] == s[i + 1]);
        }
        lemma_skip_front_absent_char(t, f, c);
    }
}

/// What `skip_front` leaves does not start with a skipped character.
pub proof fn lemma_skip_front_first(s: Seq<char>, f: spec_fn(char) -> bool)
    ensures
        skip_front(s, f).len() > 0 ==> !f(skip_front(s, f)[0]),
    decreases s.len(),
{
    if s.len() > 0 && f(s[0]) {
        lemma_skip_front_first(s.drop_first(), f);
    }
}

/// After `forward_slashes` no backslash is left.
pub proof fn lemma_forward_slashes_no_backslash(s: Seq<char>)
    ensures
        !forward_slashes(s).contains('\\'),
{
    let r = forward_slashes(s);
    assert forall|i: int| 0 <= i < r.len() implies r[i] != '\\' by {
        assert(r[i] == (if s[i] == '\\' { '/' } else { s[i] }));
    }
}

/// A string without backslashes is left as it is by `forward_slashes`.
pub proof fn lemma_forward_slashes_unchanged(s: Seq<char>)
    requires
        !s.contains('\\'),
    ensures
        forward_slashes(s) == s,
{
    assert forall|i: int| 0 <= i < s.len() implies forward_slashes(s)[i] == s[i] by {
        assert(s[i] != '\\');
    }
    assert(forward_slashes(s) =~= s);
}

} // verus!
