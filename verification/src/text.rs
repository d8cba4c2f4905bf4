//! Character-level text primitives shared by the parsers of this crate.
//!
//! Strings are modelled by their `Seq<char>` views; byte lengths are the
//! lengths of their UTF-8 encodings (`encode_utf8` from vstd).
use vstd::prelude::*;
use vstd::utf8::encode_utf8;
use vstd::utf8::encode_scalar;
use vstd::utf8::is_ascii_chars;
use vstd::utf8::valid_utf8;
use vstd::utf8::decode_utf8;

verus! {

/// `pat` occurs in `s` starting at index `i`.
pub open spec fn occurs_at(s: Seq<char>, pat: Seq<char>, i: int) -> bool {
    &&& 0 <= i
    &&& i + pat.len() <= s.len()
    &&& s.subrange(i, i + pat.len()) == pat
}

/// The first index `j >= i` at which `pat` occurs in `s`, if any.
pub open spec fn find_from(s: Seq<char>, pat: Seq<char>, i: int) -> Option<int>
    decreases s.len() + 1 - i,
{
    if i < 0 || i + pat.len() > s.len() {
        None
    } else if occurs_at(s, pat, i) {
        Some(i)
    } else {
        find_from(s, pat, i + 1)
    }
}

/// The first index at which `pat` occurs in `s` (what `str::find` reports, counted in chars).
pub open spec fn find_first(s: Seq<char>, pat: Seq<char>) -> Option<int> {
    find_from(s, pat, 0)
}

/// `s` starts with `p`.
pub open spec fn has_prefix(s: Seq<char>, p: Seq<char>) -> bool {
    p.len() <= s.len() && s.subrange(0, p.len() as int) == p
}

/// `s` up to (not including) the first `c`, or all of `s` when there is none.
pub open spec fn before_char(s: Seq<char>, c: char) -> Seq<char> {
    match find_first(s, seq![c]) {
        Some(e) => s.subrange(0, e),
        None => s,
    }
}

/// Number of bytes of the UTF-8 encoding of `c`.
pub open spec fn char_width(c: char) -> nat {
    if (c as u32) <= 0x7F {
        1
    } else if (c as u32) <= 0x7FF {
        2
    } else if (c as u32) <= 0xFFFF {
        3
    } else {
        4
    }
}

/// Number of bytes of the UTF-8 encoding of `s` (what `str::len` reports).
pub open spec fn utf8_len(s: Seq<char>) -> nat {
    encode_utf8(s).len()
}

/// `s` holds no `%` escape character.
pub open spec fn no_percent(s: Seq<char>) -> bool {
    !s.contains('%')
}

/// The lowercase form of a string, as `str::to_lowercase` computes it (Unicode rules).
pub uninterp spec fn lowercase_of(s: Seq<char>) -> Seq<char>;

/// The value of an ASCII hexadecimal digit (either case).
pub open spec fn hex_value(b: u8) -> Option<u8> {
    if 0x30 <= b <= 0x39 {
        Some((b - 0x30) as u8)
    } else if 0x41 <= b <= 0x46 {
        Some((b - 0x41 + 10) as u8)
    } else if 0x61 <= b <= 0x66 {
        Some((b - 0x61 + 10) as u8)
    } else {
        None
    }
}

/// Percent-decoding of bytes: each `%` followed by two hexadecimal digits becomes the
/// byte they spell; every other byte (a `+`, a `%` not followed by two digits) is kept.
pub open spec fn percent_decoded(b: Seq<u8>) -> Seq<u8>
    decreases b.len(),
{
    if b.len() == 0 {
        seq![]
    } else if b[0] == 0x25 && b.len() >= 3 && hex_value(b[1]) is Some && hex_value(b[2]) is Some {
        seq![(hex_value(b[1])->0 * 16 + hex_value(b[2])->0) as u8] + percent_decoded(
            b.subrange(3, b.len() as int),
        )
    } else {
        seq![b[0]] + percent_decoded(b.drop_first())
    }
}

/// The result of percent-decoding a string: the text whose UTF-8 encoding is the decoded
/// bytes, or `None` when those bytes are not UTF-8.
pub open spec fn url_decoded(s: Seq<char>) -> Option<Seq<char>> {
    let d = percent_decoded(encode_utf8(s));
    if valid_utf8(d) {
        Some(decode_utf8(d))
    } else {
        None
    }
}

/// `c` with an ASCII capital mapped to its small letter.
pub open spec fn ascii_lower_char(c: char) -> char {
    if 'A' <= c <= 'Z' {
        ((c as u32) + 32) as char
    } else {
        c
    }
}

/// `s` with its ASCII capitals mapped to small letters.
pub open spec fn ascii_lowercase(s: Seq<char>) -> Seq<char> {
    s.map_values(|c: char| ascii_lower_char(c))
}

/// The lowercase form of a text, as `str::to_lowercase` gives it: for ASCII text the
/// ASCII mapping, otherwise `lowercase_of`.
pub open spec fn lowered(s: Seq<char>) -> Seq<char> {
    if is_ascii_chars(s) {
        ascii_lowercase(s)
    } else {
        lowercase_of(s)
    }
}

/// Calls `str::to_lowercase` (std). Claimed: the result is `lowercase_of` of the argument,
/// a function of the argument alone; and on ASCII text (where the Unicode lowercase mapping
/// sends `A`..`Z` to `a`..`z` and leaves every other character alone) it is that mapping.
/// Nothing is claimed of how other characters are mapped.
#[verifier::external_body]
pub(crate) fn lowercase(s: &str) -> (r: String)
    ensures
        r@ == lowercase_of(s@),
        is_ascii_chars(s@) ==> r@ == ascii_lowercase(s@),
{
    s.to_lowercase()
}

/// Calls `urlencoding::decode`. Claimed, as its source shows: the bytes of the text are
/// percent-decoded (`percent_decoded`: a `%` and two hexadecimal digits of either case give
/// one byte, every other byte is kept, `+` included) and the result is `Ok` exactly when
/// those bytes are UTF-8, holding the text they encode (`url_decoded`).
#[verifier::external_body]
pub(crate) fn url_decode(s: &str) -> (r: Option<String>)
    ensures
        r is Some <==> url_decoded(s@) is Some,
        r matches Some(d) ==> url_decoded(s@) == Some(d@),
{
    urlencoding::decode(s).ok().map(|d| d.into_owned())
}

/// Calls `String::push` (std): appends one character.
#[verifier::external_body]
fn push_char(s: &mut String, c: char)
    ensures
        final(s)@ == old(s)@.push(c),
{
    s.push(c)
}

/// The characters of `s`, in order.
pub fn chars_of(s: &str) -> (out: Vec<char>)
    ensures
        out@ == s@,
{
    let mut out: Vec<char> = Vec::new();
    for c in it: s.chars()
        invariant
            out@ == it.seq().take(it.index()),
            it.seq() == s@,
    {
        out.push(c);
    }
    out
}

/// The string made of the characters `cs[from..to]`.
pub fn string_of_range(cs: &Vec<char>, from: usize, to: usize) -> (out: String)
    requires
        from <= to <= cs@.len(),
    ensures
        out@ == cs@.subrange(from as int, to as int),
{
    let mut out = String::new();
    let mut i = from;
    while i < to
        invariant
            from <= i <= to <= cs@.len(),
            out@ == cs@.subrange(from as int, i as int),
        decreases to - i,
    {
        push_char(&mut out, cs[i]);
        assert(cs@.subrange(from as int, i + 1) =~= cs@.subrange(from as int, i as int).push(
            cs@[i as int],
        ));
        i = i + 1;
    }
    out
}

/// The string made of all the characters of `cs`.
pub fn string_of(cs: &Vec<char>) -> (out: String)
    ensures
        out@ == cs@,
{
    let out = string_of_range(cs, 0, cs.len());
    assert(cs@.subrange(0, cs@.len() as int) =~= cs@);
    out
}

/// Whether `pat` occurs in `s` at index `i`.
pub fn occurs_at_exec(s: &Vec<char>, pat: &Vec<char>, i: usize) -> (r: bool)
    ensures
        r == occurs_at(s@, pat@, i as int),
{
    if pat.len() > s.len() || i > s.len() - pat.len() {
        return false;
    }
    let n = s.len();
    let mut k: usize = 0;
    while k < pat.len()
        invariant
            n == s@.len(),
            i + pat@.len() <= s@.len(),
            k <= pat@.len(),
            s@.subrange(i as int, i + k) =~= pat@.subrange(0, k as int),
        decreases pat.len() - k,
    {
        if s[i + k] != pat[k] {
            assert(s@.subrange(i as int, i + pat@.len())[k as int] != pat@[k as int]);
            return false;
        }
        assert(s@.subrange(i as int, i + k + 1) =~= s@.subrange(i as int, i + k).push(
            s@[i + k],
        ));
        assert(pat@.subrange(0, k + 1) =~= pat@.subrange(0, k as int).push(pat@[k as int]));
        k = k + 1;
    }
    assert(pat@.subrange(0, pat@.len() as int) =~= pat@);
    true
}

/// The first index `j >= start` at which `pat` occurs in `s`.
pub fn find_from_exec(s: &Vec<char>, pat: &Vec<char>, start: usize) -> (r: Option<usize>)
    ensures
        match r {
            Some(j) => find_from(s@, pat@, start as int) == Some(j as int),
            None => find_from(s@, pat@, start as int) is None,
        },
{
    if pat.len() > s.len() {
        return None;
    }
    let last = s.len() - pat.len();
    if start > last {
        return None;
    }
    let mut i = start;
    loop
        invariant
            last + pat@.len() == s@.len(),
            start <= i <= last,
            find_from(s@, pat@, start as int) == find_from(s@, pat@, i as int),
        decreases last - i,
    {
        if occurs_at_exec(s, pat, i) {
            return Some(i);
        }
        if i == last {
            assert(find_from(s@, pat@, i + 1) is None);
            return None;
        }
        i = i + 1;
    }
}

/// Index of the first occurrence of `pat` in `s`.
pub fn find_exec(s: &Vec<char>, pat: &Vec<char>) -> (r: Option<usize>)
    ensures
        match r {
            Some(j) => find_first(s@, pat@) == Some(j as int),
            None => find_first(s@, pat@) is None,
        },
{
    find_from_exec(s, pat, 0)
}

/// A found index lies in range.
pub proof fn lemma_find_from_range(s: Seq<char>, pat: Seq<char>, i: int)
    ensures
        find_from(s, pat, i) matches Some(j) ==> i <= j && occurs_at(s, pat, j),
        find_from(s, pat, i) matches Some(j) ==> forall|k: int|
            i <= k < j ==> !#[trigger] occurs_at(s, pat, k),
    decreases s.len() + 1 - i,
{
    if i < 0 || i + pat.len() > s.len() {
    } else if occurs_at(s, pat, i) {
    } else {
        lemma_find_from_range(s, pat, i + 1);
    }
}

/// `has_prefix` decided on vectors.
pub fn has_prefix_exec(s: &Vec<char>, p: &Vec<char>) -> (r: bool)
    ensures
        r == has_prefix(s@, p@),
{
    occurs_at_exec(s, p, 0)
}

/// The encoding of a concatenation is the concatenation of the encodings.
pub proof fn lemma_encode_utf8_concat(a: Seq<char>, b: Seq<char>)
    ensures
        encode_utf8(a + b) == encode_utf8(a) + encode_utf8(b),
    decreases a.len(),
{
    if a.len() == 0 {
        assert(a + b =~= b);
        assert(encode_utf8(a) =~= Seq::<u8>::empty());
        assert(encode_utf8(a) + encode_utf8(b) =~= encode_utf8(b));
    } else {
        assert((a + b).drop_first() =~= a.drop_first() + b);
        assert((a + b)[0] == a[0]);
        lemma_encode_utf8_concat(a.drop_first(), b);
        assert(encode_utf8(a + b) =~= encode_utf8(a) + encode_utf8(b));
    }
}

/// The encoding of one character has `char_width` bytes.
pub proof fn lemma_encode_scalar_len(c: char)
    ensures
        encode_scalar(c as u32).len() == char_width(c),
{
}

/// Appending one character adds its width to the byte length.
pub proof fn lemma_utf8_len_push(s: Seq<char>, c: char)
    ensures
        utf8_len(s.push(c)) == utf8_len(s) + char_width(c),
{
    lemma_encode_utf8_concat(s, seq![c]);
    assert(s.push(c) =~= s + seq![c]);
    assert(seq![c].drop_first() =~= Seq::<char>::empty());
    assert(encode_utf8(seq![c]) =~= encode_scalar(c as u32) + encode_utf8(
        Seq::<char>::empty(),
    ));
    lemma_encode_scalar_len(c);
}

/// A prefix is never longer in bytes than the whole.
pub proof fn lemma_utf8_len_prefix(s: Seq<char>, k: int)
    requires
        0 <= k <= s.len(),
    ensures
        utf8_len(s.take(k)) <= utf8_len(s),
{
    lemma_encode_utf8_concat(s.take(k), s.skip(k));
    assert(s.take(k) + s.skip(k) =~= s);
}

/// Byte width of one character.
pub fn char_width_exec(c: char) -> (w: usize)
    ensures
        w == char_width(c),
        1 <= w <= 4,
{
    let u = c as u32;
    if u <= 0x7F {
        1
    } else if u <= 0x7FF {
        2
    } else if u <= 0xFFFF {
        3
    } else {
        4
    }
}

/// The byte length of `s`, or `cap + 1` when it is longer than `cap`.
pub fn utf8_len_capped(s: &Vec<char>, cap: usize) -> (r: usize)
    requires
        cap < usize::MAX,
    ensures
        utf8_len(s@) <= cap ==> r == utf8_len(s@),
        utf8_len(s@) > cap ==> r == cap + 1,
{
    let mut total: usize = 0;
    let mut i: usize = 0;
    while i < s.len()
        invariant
            i <= s@.len(),
            cap < usize::MAX,
            total <= cap,
            total == utf8_len(s@.take(i as int)),
        decreases s.len() - i,
    {
        let w = char_width_exec(s[i]);
        proof {
            lemma_utf8_len_push(s@.take(i as int), s@[i as int]);
            assert(s@.take(i + 1) =~= s@.take(i as int).push(s@[i as int]));
        }
        if w > cap - total {
            proof {
                lemma_utf8_len_prefix(s@, i + 1);
            }
            return cap + 1;
        }
        total = total + w;
        i = i + 1;
    }
    assert(s@.take(s@.len() as int) =~= s@);
    total
}

/// The characters of `a` and `b` agree.
pub fn chars_equal(a: &Vec<char>, b: &Vec<char>) -> (r: bool)
    ensures
        r == (a@ == b@),
{
    if a.len() != b.len() {
        return false;
    }
    let mut i: usize = 0;
    while i < a.len()
        invariant
            a@.len() == b@.len(),
            i <= a@.len(),
            forall|k: int| 0 <= k < i ==> a@[k] == b@[k],
        decreases a.len() - i,
    {
        if a[i] != b[i] {
            return false;
        }
        i = i + 1;
    }
    assert(a@ =~= b@);
    true
}

/// `a` and `b` are the same text.
pub fn str_equal(a: &str, b: &str) -> (r: bool)
    ensures
        r == (a@ == b@),
{
    let ca = chars_of(a);
    let cb = chars_of(b);
    chars_equal(&ca, &cb)
}

/// The code point of `c` with ASCII capitals mapped to small letters.
pub open spec fn ascii_folded(c: char) -> u32 {
    if 0x41 <= (c as u32) <= 0x5A {
        ((c as u32) + 0x20) as u32
    } else {
        c as u32
    }
}

/// `a` and `b` agree up to the case of ASCII letters (as `str::eq_ignore_ascii_case`).
pub open spec fn eq_ignore_ascii_case(a: Seq<char>, b: Seq<char>) -> bool {
    a.len() == b.len() && forall|i: int| 0 <= i < a.len() ==> ascii_folded(a[i]) == ascii_folded(b[i])
}

/// `ascii_folded` computed.
pub fn ascii_folded_exec(c: char) -> (u: u32)
    ensures
        u == ascii_folded(c),
{
    let v = c as u32;
    if 0x41 <= v && v <= 0x5A {
        v + 0x20
    } else {
        v
    }
}

/// Whether `a` and `b` agree up to the case of ASCII letters.
pub fn eq_ignore_ascii_case_exec(a: &str, b: &str) -> (r: bool)
    ensures
        r == eq_ignore_ascii_case(a@, b@),
{
    let ca = chars_of(a);
    let cb = chars_of(b);
    if ca.len() != cb.len() {
        return false;
    }
    let mut i: usize = 0;
    while i < ca.len()
        invariant
            ca@ == a@,
            cb@ == b@,
            ca@.len() == cb@.len(),
            i <= ca@.len(),
            forall|k: int| 0 <= k < i ==> ascii_folded(ca@[k]) == ascii_folded(cb@[k]),
        decreases ca.len() - i,
    {
        if ascii_folded_exec(ca[i]) != ascii_folded_exec(cb[i]) {
            return false;
        }
        i = i + 1;
    }
    true
}

/// The index of the last `c` in `s`.
pub open spec fn last_index_of(s: Seq<char>, c: char) -> Option<int>
    decreases s.len(),
{
    if s.len() == 0 {
        None
    } else if s.last() == c {
        Some(s.len() - 1)
    } else {
        last_index_of(s.drop_last(), c)
    }
}

/// What `last_index_of` finds: the last `c`, or none at all.
pub proof fn lemma_last_index_of(s: Seq<char>, c: char)
    ensures
        last_index_of(s, c) matches Some(j) ==> 0 <= j < s.len() && s[j] == c && forall|k: int|
            j < k < s.len() ==> #[trigger] s[k] != c,
        last_index_of(s, c) is None ==> forall|k: int| 0 <= k < s.len() ==> #[trigger] s[k] != c,
    decreases s.len(),
{
    if s.len() > 0 {
        assert(s[s.len() - 1] == s.last());
        if s.last() != c {
            let t = s.drop_last();
            lemma_last_index_of(t, c);
            assert forall|k: int| 0 <= k < t.len() implies #[trigger] t[k] == s[k] by {}
            assert forall|k: int| 0 <= k < t.len() implies #[trigger] s[k] == t[k] by {}
        }
    }
}

/// The index of the last `c` in `s`.
pub fn last_index_of_exec(s: &Vec<char>, c: char) -> (r: Option<usize>)
    ensures
        match r {
            Some(j) => last_index_of(s@, c) == Some(j as int),
            None => last_index_of(s@, c) is None,
        },
{
    let mut i = s.len();
    assert(s@.take(i as int) =~= s@);
    while i > 0
        invariant
            i <= s@.len(),
            last_index_of(s@, c) == last_index_of(s@.take(i as int), c),
        decreases i,
    {
        let ghost t = s@.take(i as int);
        assert(t.last() == s@[i - 1]);
        assert(t.drop_last() =~= s@.take(i - 1));
        if s[i - 1] == c {
            return Some(i - 1);
        }
        i = i - 1;
    }
    None
}

/// The first occurrence from `i` is `j` when `pat` occurs at `j` and nowhere in between.
pub proof fn lemma_find_from_at(s: Seq<char>, pat: Seq<char>, i: int, j: int)
    requires
        0 <= i <= j,
        occurs_at(s, pat, j),
        forall|k: int| i <= k < j ==> !#[trigger] occurs_at(s, pat, k),
    ensures
        find_from(s, pat, i) == Some(j),
    decreases j - i,
{
    if i < j {
        assert(!occurs_at(s, pat, i));
        lemma_find_from_at(s, pat, i + 1, j);
    }
}

/// When nothing is found from `i`, `pat` occurs nowhere from `i` on.
pub proof fn lemma_find_from_none_nowhere(s: Seq<char>, pat: Seq<char>, i: int)
    requires
        0 <= i,
        find_from(s, pat, i) is None,
    ensures
        forall|k: int| i <= k ==> !#[trigger] occurs_at(s, pat, k),
    decreases s.len() + 1 - i,
{
    if i + pat.len() <= s.len() {
        lemma_find_from_none_nowhere(s, pat, i + 1);
    }
}

/// Nothing is found from `i` when `pat` occurs nowhere from `i` on.
pub proof fn lemma_find_from_none(s: Seq<char>, pat: Seq<char>, i: int)
    requires
        0 <= i,
        forall|k: int| i <= k ==> !#[trigger] occurs_at(s, pat, k),
    ensures
        find_from(s, pat, i) is None,
    decreases s.len() + 1 - i,
{
    if i + pat.len() <= s.len() {
        assert(!occurs_at(s, pat, i));
        lemma_find_from_none(s, pat, i + 1);
    }
}

/// The characters with the Unicode `White_Space` property, which `char::is_whitespace`
/// and `str::trim` go by.
pub open spec fn white_space(c: char) -> bool {
    let n = c as u32;
    (9 <= n <= 13) || n == 32 || n == 0x85 || n == 0xa0 || n == 0x1680 || (0x2000 <= n
        <= 0x200a) || n == 0x2028 || n == 0x2029 || n == 0x202f || n == 0x205f || n == 0x3000
}

/// `s` without its leading white space.
pub open spec fn trim_start_spec(s: Seq<char>) -> Seq<char>
    decreases s.len(),
{
    if s.len() > 0 && white_space(s[0]) {
        trim_start_spec(s.drop_first())
    } else {
        s
    }
}

/// `s` without its trailing white space.
pub open spec fn trim_end_spec(s: Seq<char>) -> Seq<char>
    decreases s.len(),
{
    if s.len() > 0 && white_space(s.last()) {
        trim_end_spec(s.drop_last())
    } else {
        s
    }
}

/// `s` without leading and trailing white space, as `str::trim` gives it.
pub open spec fn trimmed(s: Seq<char>) -> Seq<char> {
    trim_end_spec(trim_start_spec(s))
}

/// Whether `c` is white space (see `white_space`).
pub fn is_white_space(c: char) -> (r: bool)
    ensures
        r == white_space(c),
{
    let n = c as u32;
    (9 <= n && n <= 13) || n == 32 || n == 0x85 || n == 0xa0 || n == 0x1680 || (0x2000 <= n
        && n <= 0x200a) || n == 0x2028 || n == 0x2029 || n == 0x202f || n == 0x205f || n
        == 0x3000
}

/// `s` without leading and trailing white space.
pub fn trim(s: &str) -> (r: String)
    ensures
        r@ == trimmed(s@),
{
    let cs = chars_of(s);
    let n = cs.len();
    let mut i: usize = 0;
    assert(cs@.subrange(0, n as int) =~= cs@);
    while i < n && is_white_space(cs[i])
        invariant
            n == cs@.len(),
            i <= n,
            trim_start_spec(cs@) == trim_start_spec(cs@.subrange(i as int, n as int)),
        decreases n - i,
    {
        assert(cs@.subrange(i as int, n as int).drop_first() =~= cs@.subrange(i + 1, n as int));
        i = i + 1;
    }
    let mut j: usize = n;
    while j > i && is_white_space(cs[j - 1])
        invariant
            n == cs@.len(),
            i <= j <= n,
            trim_start_spec(cs@) == cs@.subrange(i as int, n as int),
            trim_end_spec(cs@.subrange(i as int, n as int)) == trim_end_spec(
                cs@.subrange(i as int, j as int),
            ),
        decreases j - i,
    {
        let ghost t = cs@.subrange(i as int, j as int);
        assert(t.last() == cs@[j - 1]);
        assert(t.drop_last() =~= cs@.subrange(i as int, j - 1));
        j = j - 1;
    }
    string_of_range(&cs, i, j)
}

/// No byte of a UTF-8 encoding made with the high bit set is `%`.
proof fn lemma_marked_bytes_not_percent(x: u8)
    by (bit_vector)
    ensures
        (0x80u8 | x) != 0x25u8,
        (0xC0u8 | x) != 0x25u8,
        (0xE0u8 | x) != 0x25u8,
        (0xF0u8 | x) != 0x25u8,
{
}

/// A one-byte encoding is the value itself.
proof fn lemma_single_byte(v: u32)
    by (bit_vector)
    requires
        v <= 0x7F,
        v != 0x25,
    ensures
        (v & 0x7F) as u8 != 0x25u8,
{
}

/// The encoding of a character other than `%` holds no `%` byte.
proof fn lemma_scalar_without_percent(c: char)
    requires
        c != '%',
    ensures
        !encode_scalar(c as u32).contains(0x25u8),
{
    let v = c as u32;
    vstd::utf8::char_u32_cast(c, v);
    vstd::utf8::char_u32_cast('%', 0x25);
    lemma_marked_bytes_not_percent(((v >> 6) & 0x1F) as u8);
    lemma_marked_bytes_not_percent(((v >> 12) & 0x0F) as u8);
    lemma_marked_bytes_not_percent(((v >> 18) & 0x7) as u8);
    lemma_marked_bytes_not_percent((v & 0x3F) as u8);
    lemma_marked_bytes_not_percent(((v >> 6) & 0x3F) as u8);
    lemma_marked_bytes_not_percent(((v >> 12) & 0x3F) as u8);
    if v <= 0x7F {
        lemma_single_byte(v);
    }
    let e = encode_scalar(v);
    assert forall|i: int| 0 <= i < e.len() implies e[i] != 0x25u8 by {}
}

/// Bytes without `%` come out of percent-decoding as they went in.
proof fn lemma_percent_decoded_plain(b: Seq<u8>, rest: Seq<u8>)
    requires
        !b.contains(0x25u8),
    ensures
        percent_decoded(b + rest) == b + percent_decoded(rest),
    decreases b.len(),
{
    if b.len() == 0 {
        assert(b + rest =~= rest);
        assert(b + percent_decoded(rest) =~= percent_decoded(rest));
    } else {
        let t = b.drop_first();
        assert((b + rest)[0] == b[0]);
        assert((b + rest).drop_first() =~= t + rest);
        assert(!t.contains(0x25u8)) by {
            assert forall|i: int| 0 <= i < t.len() implies t[i] != 0x25u8 by {
                assert(t[i] == b[i + 1]);
            }
        }
        lemma_percent_decoded_plain(t, rest);
        assert(b + percent_decoded(rest) =~= seq![b[0]] + (t + percent_decoded(rest)));
    }
}

/// A text without `%` percent-decodes to itself.
pub proof fn lemma_no_percent_decodes_to_itself(s: Seq<char>)
    requires
        no_percent(s),
    ensures
        url_decoded(s) == Some(s),
{
    broadcast use vstd::utf8::encode_utf8_valid_utf8, vstd::utf8::encode_utf8_decode_utf8;

    lemma_no_percent_bytes(s);
}

/// The encoding of a text without `%` percent-decodes to itself.
proof fn lemma_no_percent_bytes(s: Seq<char>)
    requires
        no_percent(s),
    ensures
        percent_decoded(encode_utf8(s)) == encode_utf8(s),
    decreases s.len(),
{
    if s.len() == 0 {
        assert(encode_utf8(s) =~= Seq::<u8>::empty());
    } else {
        let t = s.drop_first();
        assert(s[0] != '%');
        assert(no_percent(t)) by {
            assert forall|i: int| 0 <= i < t.len() implies t[i] != '%' by {
                assert(t[i] == s[i + 1]);
            }
        }
        lemma_scalar_without_percent(s[0]);
        lemma_no_percent_bytes(t);
        lemma_percent_decoded_plain(encode_scalar(s[0] as u32), encode_utf8(t));
    }
}

/// The uppercase hexadecimal digit of a value below 16.
pub open spec fn hex_digit(d: u8) -> char {
    if d == 0 {
        '0'
    } else if d == 1 {
        '1'
    } else if d == 2 {
        '2'
    } else if d == 3 {
        '3'
    } else if d == 4 {
        '4'
    } else if d == 5 {
        '5'
    } else if d == 6 {
        '6'
    } else if d == 7 {
        '7'
    } else if d == 8 {
        '8'
    } else if d == 9 {
        '9'
    } else if d == 10 {
        'A'
    } else if d == 11 {
        'B'
    } else if d == 12 {
        'C'
    } else if d == 13 {
        'D'
    } else if d == 14 {
        'E'
    } else {
        'F'
    }
}

/// Every byte written as `%` and two hexadecimal digits (the most cautious percent-encoding:
/// `&`, `%`, `+` and every other byte escaped).
pub open spec fn percent_encoded(b: Seq<u8>) -> Seq<char>
    decreases b.len(),
{
    if b.len() == 0 {
        seq![]
    } else {
        seq!['%', hex_digit(b[0] / 16), hex_digit(b[0] % 16)] + percent_encoded(b.drop_first())
    }
}

/// A hexadecimal digit is ASCII, is no `&`, and reads back as its value.
proof fn lemma_hex_digit(d: u8)
    requires
        d < 16,
    ensures
        '\0' <= hex_digit(d) <= '\u{7f}',
        hex_digit(d) != '&',
        hex_value(hex_digit(d) as u8) == Some(d),
{
}

/// A percent-encoding is ASCII, holds no `&`, and percent-decodes to the bytes encoded.
pub proof fn lemma_percent_encoded(b: Seq<u8>)
    ensures
        is_ascii_chars(percent_encoded(b)),
        !percent_encoded(b).contains('&'),
        percent_decoded(encode_utf8(percent_encoded(b))) == b,
    decreases b.len(),
{
    let pe = percent_encoded(b);
    if b.len() == 0 {
        assert(encode_utf8(pe) =~= Seq::<u8>::empty());
        assert(percent_decoded(Seq::<u8>::empty()) =~= b);
    } else {
        let hi = b[0] / 16;
        let lo = b[0] % 16;
        let first = seq!['%', hex_digit(hi), hex_digit(lo)];
        let rest = percent_encoded(b.drop_first());
        lemma_percent_encoded(b.drop_first());
        lemma_hex_digit(hi);
        lemma_hex_digit(lo);
        assert(is_ascii_chars(first));
        assert(pe =~= first + rest);
        assert(is_ascii_chars(pe)) by {
            assert forall|i: int| 0 <= i < pe.len() implies '\0' <= #[trigger] pe[i] <= '\u{7f}' by {
                if i >= 3 {
                    assert(pe[i] == rest[i - 3]);
                }
            }
        }
        assert(!pe.contains('&')) by {
            assert forall|i: int| 0 <= i < pe.len() implies #[trigger] pe[i] != '&' by {
                if i >= 3 {
                    assert(pe[i] == rest[i - 3]);
                }
            }
        }
        vstd::utf8::is_ascii_chars_encode_utf8(first);
        lemma_encode_utf8_concat(first, rest);
        let ef = encode_utf8(first);
        let er = encode_utf8(rest);
        assert(ef[0] == 0x25u8);
        assert(ef =~= seq![0x25u8, hex_digit(hi) as u8, hex_digit(lo) as u8]);
        let all = ef + er;
        assert(encode_utf8(pe) == all);
        assert(all[0] == 0x25u8);
        assert(all[1] == hex_digit(hi) as u8);
        assert(all[2] == hex_digit(lo) as u8);
        assert(all.subrange(3, all.len() as int) =~= er);
        assert((hi * 16 + lo) as u8 == b[0]);
        assert(percent_decoded(all) == seq![b[0]] + percent_decoded(er));
        assert(seq![b[0]] + b.drop_first() =~= b);
    }
}

/// A text percent-encoded byte by byte decodes back to itself.
pub proof fn lemma_url_decoded_of_encoded(n: Seq<char>)
    ensures
        url_decoded(percent_encoded(encode_utf8(n))) == Some(n),
{
    broadcast use vstd::utf8::encode_utf8_valid_utf8, vstd::utf8::encode_utf8_decode_utf8;

    lemma_percent_encoded(encode_utf8(n));
}

} // verus!
