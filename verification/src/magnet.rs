//! Reading magnet links: the info-hash, the trackers, a display name, and the
//! key under which a download is tracked.
use vstd::prelude::*;
use vstd::utf8::encode_utf8;
use vstd::utf8::is_char_boundary;
use vstd::utf8::encode_scalar;
use vstd::utf8::pop_first_scalar;
use vstd::utf8::is_ascii_chars;
use vstd::string::StringSliceAdditionalSpecFns;
use crate::text::{
    before_char, char_width, char_width_exec, lemma_encode_scalar_len, lemma_encode_utf8_concat, chars_of, find_exec, find_first, has_prefix,
    has_prefix_exec, lemma_find_from_range, lowercase, lowercase_of, string_of, ascii_lowercase,
    ascii_lower_char, ascii_folded, eq_ignore_ascii_case, lemma_find_from_at, lemma_find_from_none,
    occurs_at, lemma_find_from_none_nowhere, lowered, percent_encoded, lemma_percent_encoded,
    lemma_url_decoded_of_encoded,
    string_of_range, url_decode, url_decoded, utf8_len, utf8_len_capped,
};

verus! {

/// `xt=urn:btih:`, the field that carries the info-hash.
pub open spec fn btih_marker() -> Seq<char> {
    seq!['x', 't', '=', 'u', 'r', 'n', ':', 'b', 't', 'i', 'h', ':']
}

/// `dn=`, the field that carries the display name.
pub open spec fn name_marker() -> Seq<char> {
    seq!['d', 'n', '=']
}

/// `tr=`, the field that carries a tracker address.
pub open spec fn tracker_marker() -> Seq<char> {
    seq!['t', 'r', '=']
}

/// The text after the first `xt=urn:btih:`, up to the next `&`.
pub open spec fn btih_segment_spec(m: Seq<char>) -> Option<Seq<char>> {
    match find_first(m, btih_marker()) {
        Some(p) => Some(before_char(m.subrange(p + 12, m.len() as int), '&')),
        None => None,
    }
}

/// The info-hash of a magnet link: its btih segment, lowercased, when that
/// segment is exactly 40 bytes long.
pub open spec fn magnet_hash(m: Seq<char>) -> Option<Seq<char>> {
    match btih_segment_spec(m) {
        Some(seg) => if utf8_len(seg) == 40 {
            Some(lowered(seg))
        } else {
            None
        },
        None => None,
    }
}

/// `s` cut into the pieces between the occurrences of `c` (as `str::split` does).
pub open spec fn split_char(s: Seq<char>, c: char) -> Seq<Seq<char>>
    decreases s.len(),
{
    match find_first(s, seq![c]) {
        Some(i) => {
            proof {
                lemma_find_from_range(s, seq![c], 0);
            }
            seq![s.subrange(0, i)] + split_char(s.subrange(i + 1, s.len() as int), c)
        },
        None => seq![s],
    }
}

/// The tracker carried by one `&`-separated piece: a `tr=` piece whose rest decodes.
pub open spec fn tracker_of_piece(p: Seq<char>) -> Option<Seq<char>> {
    if has_prefix(p, tracker_marker()) {
        url_decoded(p.subrange(3, p.len() as int))
    } else {
        None
    }
}

/// The trackers carried by a list of pieces, in order.
pub open spec fn trackers_of(pieces: Seq<Seq<char>>) -> Seq<Seq<char>>
    decreases pieces.len(),
{
    if pieces.len() == 0 {
        seq![]
    } else {
        match tracker_of_piece(pieces[0]) {
            Some(t) => seq![t] + trackers_of(pieces.drop_first()),
            None => trackers_of(pieces.drop_first()),
        }
    }
}

/// The trackers of a magnet link.
pub open spec fn magnet_trackers(m: Seq<char>) -> Seq<Seq<char>> {
    trackers_of(split_char(m, '&'))
}

/// The longest prefix of `s` whose UTF-8 encoding fits in `budget` bytes.
pub open spec fn bytes_prefix(s: Seq<char>, budget: int) -> Seq<char>
    decreases s.len(),
{
    if s.len() == 0 || char_width(s[0]) > budget {
        seq![]
    } else {
        seq![s[0]] + bytes_prefix(s.drop_first(), budget - char_width(s[0]))
    }
}

/// The display name of a magnet link: its decoded `dn=` field (empty when that does not
/// decode); without one, the link itself, cut to 60 bytes and marked `...` when longer.
pub open spec fn magnet_display_name(m: Seq<char>) -> Seq<char> {
    match find_first(m, name_marker()) {
        Some(p) => match url_decoded(before_char(m.subrange(p + 3, m.len() as int), '&')) {
            Some(d) => d,
            None => seq![],
        },
        None => if utf8_len(m) > 60 {
            bytes_prefix(m, 60) + seq!['.', '.', '.']
        } else {
            m
        },
    }
}

/// Cutting the link at byte 60 for a display name falls between characters (or is not needed).
pub open spec fn display_name_defined(m: Seq<char>) -> bool {
    find_first(m, name_marker()) is None && utf8_len(m) > 60 ==> is_char_boundary(
        encode_utf8(m),
        60,
    )
}

/// FNV-1a (64 bit) of a byte sequence.
pub open spec fn fnv1a(data: Seq<u8>) -> u64
    decreases data.len(),
{
    if data.len() == 0 {
        0xcbf29ce484222325u64
    } else {
        (((fnv1a(data.drop_last()) ^ (data.last() as u64)) as nat * 0x100000001b3nat)
            % 0x1_0000_0000_0000_0000nat) as u64
    }
}

/// The lowercase hexadecimal digits, in value order.
pub open spec fn hex_alphabet() -> Seq<char> {
    seq!['0', '1', '2', '3', '4', '5', '6', '7', '8', '9', 'a', 'b', 'c', 'd', 'e', 'f']
}

/// `n` in lowercase hexadecimal, without leading zeros (as `format!("{:x}", n)`).
pub open spec fn hex_lower(n: nat) -> Seq<char>
    decreases n,
{
    if n < 16 {
        seq![hex_alphabet()[n as int]]
    } else {
        hex_lower(n / 16).push(hex_alphabet()[(n % 16) as int])
    }
}

/// The key of a download: the magnet's info-hash, or else the hexadecimal FNV-1a of
/// the magnet's bytes.
pub open spec fn download_key_spec(m: Seq<char>) -> Seq<char> {
    match magnet_hash(m) {
        Some(h) => h,
        None => hex_lower(fnv1a(encode_utf8(m)) as nat),
    }
}

/// `cs[from..to]` as a new vector.
pub fn subvec(cs: &Vec<char>, from: usize, to: usize) -> (out: Vec<char>)
    requires
        from <= to <= cs@.len(),
    ensures
        out@ == cs@.subrange(from as int, to as int),
{
    let mut out: Vec<char> = Vec::new();
    let mut i = from;
    while i < to
        invariant
            from <= i <= to <= cs@.len(),
            out@ == cs@.subrange(from as int, i as int),
        decreases to - i,
    {
        out.push(cs[i]);
        assert(cs@.subrange(from as int, i + 1) =~= cs@.subrange(from as int, i as int).push(
            cs@[i as int],
        ));
        i = i + 1;
    }
    out
}

/// `s` up to the first `c`.
pub fn before_char_exec(s: &Vec<char>, c: char) -> (out: Vec<char>)
    ensures
        out@ == before_char(s@, c),
{
    let pat = vec![c];
    assert(pat@ =~= seq![c]);
    match find_exec(s, &pat) {
        Some(e) => {
            proof {
                lemma_find_from_range(s@, seq![c], 0);
            }
            subvec(s, 0, e)
        },
        None => {
            let n = s.len();
            let out = subvec(s, 0, n);
            assert(out@ =~= s@);
            out
        },
    }
}

/// The btih segment of a magnet link (before any lowercasing), when it is 40 bytes long.
pub fn btih_segment(magnet: &str) -> (r: Option<String>)
    ensures
        match btih_segment_spec(magnet@) {
            Some(seg) => if utf8_len(seg) == 40 {
                r matches Some(x) && x@ == seg
            } else {
                r is None
            },
            None => r is None,
        },
{
    let cs = chars_of(magnet);
    let marker = vec!['x', 't', '=', 'u', 'r', 'n', ':', 'b', 't', 'i', 'h', ':'];
    assert(marker@ =~= btih_marker());
    match find_exec(&cs, &marker) {
        Some(p) => {
            proof {
                lemma_find_from_range(cs@, btih_marker(), 0);
            }
            let n = cs.len();
            let rest = subvec(&cs, p + 12, n);
            let seg = before_char_exec(&rest, '&');
            if utf8_len_capped(&seg, 40) == 40 {
                Some(string_of(&seg))
            } else {
                None
            }
        },
        None => None,
    }
}

/// The info-hash of a magnet link, lowercased, when its btih segment is 40 bytes long.
pub fn extract_hash_from_magnet(magnet: &str) -> (r: Option<String>)
    ensures
        match magnet_hash(magnet@) {
            Some(h) => r matches Some(x) && x@ == h,
            None => r is None,
        },
{
    match btih_segment(magnet) {
        Some(seg) => Some(lowercase(seg.as_str())),
        None => None,
    }
}

/// The tracker of one piece, if it is a `tr=` piece whose rest decodes.
fn tracker_of_piece_exec(piece: &Vec<char>) -> (r: Option<String>)
    ensures
        match tracker_of_piece(piece@) {
            Some(t) => r matches Some(x) && x@ == t,
            None => r is None,
        },
{
    let marker = vec!['t', 'r', '='];
    assert(marker@ =~= tracker_marker());
    if has_prefix_exec(piece, &marker) {
        let n = piece.len();
        let tail = string_of_range(piece, 3, n);
        url_decode(tail.as_str())
    } else {
        None
    }
}

/// The decoded `tr=` fields of a magnet link, in order.
pub fn extract_trackers_from_magnet(magnet: &str) -> (out: Vec<String>)
    ensures
        out@.map_values(|t: String| t@) == magnet_trackers(magnet@),
{
    let cs = chars_of(magnet);
    let amp = vec!['&'];
    assert(amp@ =~= seq!['&']);
    let mut rest = cs;
    let mut out: Vec<String> = Vec::new();
    loop
        invariant
            amp@ == seq!['&'],
            magnet_trackers(magnet@) == out@.map_values(|t: String| t@) + trackers_of(
                split_char(rest@, '&'),
            ),
        decreases rest@.len(),
    {
        let found = find_exec(&rest, &amp);
        let ghost pieces = split_char(rest@, '&');
        match found {
            Some(i) => {
                proof {
                    lemma_find_from_range(rest@, seq!['&'], 0);
                }
                let piece = subvec(&rest, 0, i);
                let n = rest.len();
                let next = subvec(&rest, i + 1, n);
                proof {
                    assert(pieces == seq![piece@] + split_char(next@, '&'));
                    assert(pieces[0] == piece@);
                    assert(pieces.drop_first() =~= split_char(next@, '&'));
                }
                let t = tracker_of_piece_exec(&piece);
                let ghost before = out@.map_values(|t: String| t@);
                match t {
                    Some(x) => {
                        out.push(x);
                        assert(out@.map_values(|t: String| t@) =~= before.push(x@));
                        assert(trackers_of(pieces) == seq![x@] + trackers_of(pieces.drop_first()));
                        assert(before + trackers_of(pieces) =~= before.push(x@) + trackers_of(
                            pieces.drop_first(),
                        ));
                    },
                    None => {},
                }
                rest = next;
            },
            None => {
                assert(pieces == seq![rest@]);
                assert(pieces.drop_first() =~= Seq::<Seq<char>>::empty());
                assert(trackers_of(pieces.drop_first()) =~= Seq::<Seq<char>>::empty());
                let t = tracker_of_piece_exec(&rest);
                let ghost before = out@.map_values(|t: String| t@);
                match t {
                    Some(x) => {
                        out.push(x);
                        assert(out@.map_values(|t: String| t@) =~= before.push(x@));
                        assert(trackers_of(pieces) =~= seq![x@]);
                        assert(magnet_trackers(magnet@) =~= out@.map_values(|t: String| t@));
                    },
                    None => {
                        assert(trackers_of(pieces) =~= Seq::<Seq<char>>::empty());
                        assert(magnet_trackers(magnet@) =~= out@.map_values(|t: String| t@));
                    },
                }
                return out;
            },
        }
    }
}

/// The longest prefix of `s` that fits in `budget` bytes.
pub fn bytes_prefix_exec(s: &Vec<char>, budget: usize) -> (out: Vec<char>)
    ensures
        out@ == bytes_prefix(s@, budget as int),
{
    let mut out: Vec<char> = Vec::new();
    let mut left = budget;
    let mut i: usize = 0;
    assert(s@.subrange(0, s@.len() as int) =~= s@);
    assert(out@ + bytes_prefix(s@, budget as int) =~= bytes_prefix(s@, budget as int));
    while i < s.len()
        invariant
            i <= s@.len(),
            left <= budget,
            bytes_prefix(s@, budget as int) == out@ + bytes_prefix(
                s@.subrange(i as int, s@.len() as int),
                left as int,
            ),
        decreases s.len() - i,
    {
        let ghost tail = s@.subrange(i as int, s@.len() as int);
        assert(tail[0] == s@[i as int]);
        let w = char_width_exec(s[i]);
        if w > left {
            assert(bytes_prefix(tail, left as int) =~= Seq::<char>::empty());
            assert(out@ + Seq::<char>::empty() =~= out@);
            return out;
        }
        assert(tail.drop_first() =~= s@.subrange(i + 1, s@.len() as int));
        out.push(s[i]);
        left = left - w;
        i = i + 1;
    }
    assert(s@.subrange(i as int, s@.len() as int) =~= Seq::<char>::empty());
    assert(out@ + Seq::<char>::empty() =~= out@);
    out
}

/// A display name for a magnet link (see `magnet_display_name`). The link is cut at
/// byte 60, which must fall between characters.
pub fn truncate_magnet(magnet: &str) -> (r: String)
    requires
        display_name_defined(magnet@),
    ensures
        r@ == magnet_display_name(magnet@),
{
    let cs = chars_of(magnet);
    let marker = vec!['d', 'n', '='];
    assert(marker@ =~= name_marker());
    match find_exec(&cs, &marker) {
        Some(p) => {
            proof {
                lemma_find_from_range(cs@, name_marker(), 0);
            }
            let n = cs.len();
            let rest = subvec(&cs, p + 3, n);
            let name = before_char_exec(&rest, '&');
            let name_str = string_of(&name);
            match url_decode(name_str.as_str()) {
                Some(d) => d,
                None => String::new(),
            }
        },
        None => {
            if utf8_len_capped(&cs, 60) > 60 {
                let mut head = bytes_prefix_exec(&cs, 60);
                head.push('.');
                head.push('.');
                head.push('.');
                assert(head@ =~= bytes_prefix(magnet@, 60) + seq!['.', '.', '.']);
                string_of(&head)
            } else {
                string_of(&cs)
            }
        },
    }
}

/// Whether `truncate_magnet` may be called on `magnet`.
pub fn display_name_defined_exec(magnet: &str) -> (r: bool)
    ensures
        r == display_name_defined(magnet@),
{
    let cs = chars_of(magnet);
    let marker = vec!['d', 'n', '='];
    assert(marker@ =~= name_marker());
    if find_exec(&cs, &marker).is_some() {
        return true;
    }
    if utf8_len_capped(&cs, 60) <= 60 {
        return true;
    }
    magnet.is_char_boundary(60)
}

/// FNV-1a (64 bit) of `data`.
pub fn hash_fallback(data: &[u8]) -> (h: u64)
    ensures
        h == fnv1a(data@),
{
    let mut hash: u64 = 0xcbf29ce484222325;
    let mut i: usize = 0;
    while i < data.len()
        invariant
            i <= data@.len(),
            hash == fnv1a(data@.take(i as int)),
        decreases data.len() - i,
    {
        let byte = data[i];
        assert(data@.take(i + 1).drop_last() =~= data@.take(i as int));
        hash = hash ^ (byte as u64);
        hash = hash.wrapping_mul(0x100000001b3);
        i = i + 1;
    }
    assert(data@.take(data@.len() as int) =~= data@);
    hash
}

/// The lowercase hexadecimal digits of `n`.
pub fn hex_lower_chars(n: u64) -> (out: Vec<char>)
    ensures
        out@ == hex_lower(n as nat),
    decreases n,
{
    let alphabet = vec!['0', '1', '2', '3', '4', '5', '6', '7', '8', '9', 'a', 'b', 'c', 'd', 'e', 'f'];
    assert(alphabet@ =~= hex_alphabet());
    if n < 16 {
        let d = alphabet[n as usize];
        vec![d]
    } else {
        let mut out = hex_lower_chars(n / 16);
        let d = alphabet[(n % 16) as usize];
        out.push(d);
        out
    }
}

/// `n` in lowercase hexadecimal.
pub fn format_hex(n: u64) -> (s: String)
    ensures
        s@ == hex_lower(n as nat),
{
    let cs = hex_lower_chars(n);
    string_of(&cs)
}

/// The key under which a magnet link's download is tracked: its info-hash, or the
/// hexadecimal FNV-1a of its bytes when it carries none.
pub fn download_key(magnet: &str) -> (k: String)
    ensures
        k@ == download_key_spec(magnet@),
{
    match extract_hash_from_magnet(magnet) {
        Some(h) => h,
        None => {
            let bytes = magnet.as_bytes();
            assert(bytes@ == encode_utf8(magnet@));
            format_hex(hash_fallback(bytes))
        },
    }
}

/// On a character boundary `b` of the encoding of `m`, the prefix of `m` that fits in
/// `b` bytes encodes to exactly the first `b` bytes of `m`.
pub proof fn lemma_bytes_prefix_encoding(m: Seq<char>, b: int)
    requires
        0 <= b <= utf8_len(m),
        is_char_boundary(encode_utf8(m), b),
    ensures
        encode_utf8(bytes_prefix(m, b)) == encode_utf8(m).subrange(0, b),
    decreases m.len(),
{
    broadcast use vstd::utf8::encode_utf8_valid_utf8;

    let bytes = encode_utf8(m);
    if m.len() == 0 {
        assert(bytes_prefix(m, b) =~= Seq::<char>::empty());
        assert(encode_utf8(m).subrange(0, b) =~= Seq::<u8>::empty());
    } else {
        let rest = m.drop_first();
        let w = char_width(m[0]);
        vstd::utf8::encode_utf8_first_scalar(m);
        lemma_encode_scalar_len(m[0]);
        assert(bytes =~= encode_scalar(m[0] as u32) + encode_utf8(rest));
        assert(pop_first_scalar(bytes) =~= encode_utf8(rest));
        if b == 0 {
            assert(bytes_prefix(m, b) =~= Seq::<char>::empty());
            assert(bytes.subrange(0, b) =~= Seq::<u8>::empty());
        } else {
            assert(is_char_boundary(encode_utf8(rest), b - w));
            if b < w {
                assert(false);
            }
            lemma_bytes_prefix_encoding(rest, b - w);
            lemma_encode_utf8_concat(seq![m[0]], bytes_prefix(rest, b - w));
            assert(seq![m[0]].drop_first() =~= Seq::<char>::empty());
            assert(encode_utf8(seq![m[0]]) =~= encode_scalar(m[0] as u32) + encode_utf8(
                Seq::<char>::empty(),
            ));
            assert(encode_utf8(bytes_prefix(m, b)) =~= bytes.subrange(0, b));
        }
    }
}

/// When the link carries no `dn=` field and is longer than 60 bytes, its display name is
/// the text of its first 60 bytes followed by `...` (what slicing the link at byte 60 gives).
pub proof fn law_display_name_is_byte_prefix(m: Seq<char>)
    requires
        display_name_defined(m),
        find_first(m, name_marker()) is None,
        utf8_len(m) > 60,
    ensures
        magnet_display_name(m) == bytes_prefix(m, 60) + seq!['.', '.', '.'],
        encode_utf8(bytes_prefix(m, 60)) == encode_utf8(m).subrange(0, 60),
{
    lemma_bytes_prefix_encoding(m, 60);
}

/// For ASCII text the byte length is the number of characters.
pub proof fn lemma_ascii_utf8_len(s: Seq<char>)
    requires
        is_ascii_chars(s),
    ensures
        utf8_len(s) == s.len(),
{
    vstd::utf8::is_ascii_chars_encode_utf8(s);
}

/// Two characters that agree up to ASCII case lower to the same character.
proof fn lemma_fold_lower(a: char, b: char)
    requires
        ascii_folded(a) == ascii_folded(b),
    ensures
        ascii_lower_char(a) == ascii_lower_char(b),
{
    vstd::utf8::char_u32_cast(a, a as u32);
    vstd::utf8::char_u32_cast(b, b as u32);
    let la = ascii_lower_char(a);
    let lb = ascii_lower_char(b);
    assert((la as u32) == ascii_folded(a));
    assert((lb as u32) == ascii_folded(b));
    vstd::utf8::char_u32_cast(la, la as u32);
    vstd::utf8::char_u32_cast(lb, lb as u32);
}

/// The info-hash does not depend on the ASCII case of the link's hash: two links whose
/// btih segments are ASCII and agree up to ASCII case have the same info-hash.
pub proof fn law_hash_ignores_ascii_case(m1: Seq<char>, m2: Seq<char>)
    requires
        btih_segment_spec(m1) is Some,
        btih_segment_spec(m2) is Some,
        is_ascii_chars(btih_segment_spec(m1)->0),
        is_ascii_chars(btih_segment_spec(m2)->0),
        eq_ignore_ascii_case(btih_segment_spec(m1)->0, btih_segment_spec(m2)->0),
    ensures
        magnet_hash(m1) == magnet_hash(m2),
{
    let s1 = btih_segment_spec(m1)->0;
    let s2 = btih_segment_spec(m2)->0;
    lemma_ascii_utf8_len(s1);
    lemma_ascii_utf8_len(s2);
    assert forall|i: int| 0 <= i < s1.len() implies ascii_lowercase(s1)[i] == ascii_lowercase(
        s2,
    )[i] by {
        lemma_fold_lower(s1[i], s2[i]);
    }
    assert(ascii_lowercase(s1) =~= ascii_lowercase(s2));
}

/// The info-hash of a link with an ASCII btih segment is 40 characters, none of them an
/// ASCII capital, and lowering it again changes nothing.
pub proof fn law_hash_is_lowercase(m: Seq<char>)
    requires
        magnet_hash(m) is Some,
        is_ascii_chars(btih_segment_spec(m)->0),
    ensures
        magnet_hash(m)->0.len() == 40,
        forall|i: int| 0 <= i < 40 ==> !('A' <= #[trigger] magnet_hash(m)->0[i] <= 'Z'),
        is_ascii_chars(magnet_hash(m)->0),
        ascii_lowercase(magnet_hash(m)->0) == magnet_hash(m)->0,
{
    let s = btih_segment_spec(m)->0;
    let h = magnet_hash(m)->0;
    lemma_ascii_utf8_len(s);
    assert forall|i: int| 0 <= i < h.len() implies !('A' <= #[trigger] h[i] <= 'Z') && '\0' <= h[i]
        <= '\u{7f}' && ascii_lower_char(h[i]) == h[i] by {
        let c = s[i];
        if 'A' <= c <= 'Z' {
            vstd::utf8::char_u32_cast(h[i], h[i] as u32);
            assert((h[i] as u32) == (c as u32) + 32);
        }
    }
    assert(ascii_lowercase(h) =~= h);
}

/// `magnet:?`, the start of a magnet link.
pub open spec fn magnet_scheme() -> Seq<char> {
    seq!['m', 'a', 'g', 'n', 'e', 't', ':', '?']
}

/// In a written link, the btih marker is first found right after `magnet:?`.
#[verifier::spinoff_prover]
proof fn lemma_marker_after_scheme(rest: Seq<char>)
    ensures
        find_first(magnet_scheme() + btih_marker() + rest, btih_marker()) == Some(8int),
{
    let head = magnet_scheme() + btih_marker();
    let link = head + rest;
    assert(head.len() == 20);
    assert forall|k: int| 0 <= k < 8 implies link[k] != 'x' by {
        assert(link[k] == head[k]);
        assert(head[k] == magnet_scheme()[k]);
    }
    assert forall|k: int| 0 <= k < 8 implies !#[trigger] occurs_at(link, btih_marker(), k) by {
        if occurs_at(link, btih_marker(), k) {
            assert(link.subrange(k, k + 12)[0] == link[k]);
            assert(btih_marker()[0] == 'x');
        }
    }
    assert forall|k: int| 0 <= k < 12 implies link[8 + k] == btih_marker()[k] by {
        assert(link[8 + k] == head[8 + k]);
    }
    assert(link.subrange(8, 20) =~= btih_marker());
    lemma_find_from_at(link, btih_marker(), 0, 8);
}

/// A text without `&`, followed by nothing or by a `&`-field, ends before that `&`.
proof fn lemma_before_amp(h: Seq<char>, tail: Seq<char>)
    requires
        !h.contains('&'),
        tail.len() == 0 || tail[0] == '&',
    ensures
        before_char(h + tail, '&') == h,
{
    let rest = h + tail;
    let amp = seq!['&'];
    assert forall|k: int| 0 <= k < h.len() implies !#[trigger] occurs_at(rest, amp, k) by {
        if occurs_at(rest, amp, k) {
            assert(rest.subrange(k, k + 1)[0] == rest[k]);
            assert(h[k] == '&');
            assert(h.contains('&'));
        }
    }
    if tail.len() == 0 {
        assert(rest =~= h);
        lemma_find_from_none(rest, amp, 0);
        assert(before_char(rest, '&') =~= h);
    } else {
        assert(rest.subrange(h.len() as int, h.len() as int + 1) =~= amp);
        lemma_find_from_at(rest, amp, 0, h.len() as int);
        assert(before_char(rest, '&') =~= h);
    }
}

/// A link written as `magnet:?xt=urn:btih:` followed by an info-hash `h` (40 ASCII
/// characters, no capital, no `&`) and then nothing or further `&`-fields has `h` as its
/// info-hash: reading a hash back from the link it was written into gives it again.
pub proof fn law_hash_of_written_link(h: Seq<char>, tail: Seq<char>)
    requires
        h.len() == 40,
        is_ascii_chars(h),
        forall|i: int| 0 <= i < 40 ==> !('A' <= #[trigger] h[i] <= 'Z'),
        !h.contains('&'),
        tail.len() == 0 || tail[0] == '&',
    ensures
        magnet_hash(magnet_scheme() + btih_marker() + h + tail) == Some(h),
{
    let link = magnet_scheme() + btih_marker() + h + tail;
    assert(link =~= magnet_scheme() + btih_marker() + (h + tail));
    lemma_marker_after_scheme(h + tail);
    assert(link.subrange(20, link.len() as int) =~= h + tail);
    lemma_before_amp(h, tail);
    assert(btih_segment_spec(link) == Some(h));
    lemma_ascii_utf8_len(h);
    assert forall|i: int| 0 <= i < h.len() implies #[trigger] ascii_lowercase(h)[i] == h[i] by {}
    assert(ascii_lowercase(h) =~= h);
}

/// The link `m` with its btih segment replaced by `seg`.
pub open spec fn with_hash_segment(m: Seq<char>, seg: Seq<char>) -> Seq<char> {
    let p = find_first(m, btih_marker())->0;
    let old_seg = btih_segment_spec(m)->0;
    m.subrange(0, p + 12) + seg + m.subrange(p + 12 + old_seg.len(), m.len() as int)
}

/// What `before_char(rest, '&')` leaves: a part without `&`, after which `rest` ends or
/// goes on with a `&`.
proof fn lemma_before_amp_split(rest: Seq<char>)
    ensures
        ({
            let head = before_char(rest, '&');
            let tail = rest.subrange(head.len() as int, rest.len() as int);
            &&& head.len() <= rest.len()
            &&& head == rest.subrange(0, head.len() as int)
            &&& !head.contains('&')
            &&& (tail.len() == 0 || tail[0] == '&')
        }),
{
    let amp = seq!['&'];
    let head = before_char(rest, '&');
    match find_first(rest, amp) {
        Some(e) => {
            lemma_find_from_range(rest, amp, 0);
            assert(rest.subrange(e, e + 1)[0] == rest[e]);
            assert forall|k: int| 0 <= k < e implies #[trigger] rest[k] != '&' by {
                assert(!occurs_at(rest, amp, k));
                if rest[k] == '&' {
                    assert(rest.subrange(k, k + 1) =~= amp);
                }
            }
            assert forall|k: int| 0 <= k < head.len() implies #[trigger] head[k] != '&' by {
                assert(head[k] == rest[k]);
            }
        },
        None => {
            lemma_find_from_none_nowhere(rest, amp, 0);
            assert forall|k: int| 0 <= k < rest.len() implies #[trigger] rest[k] != '&' by {
                assert(!occurs_at(rest, amp, k));
                if rest[k] == '&' {
                    assert(rest.subrange(k, k + 1) =~= amp);
                }
            }
            assert(rest.subrange(0, rest.len() as int) =~= rest);
        },
    }
}

/// Changing the ASCII case of the btih segment inside a link keeps its info-hash: for a
/// link whose segment is ASCII, writing in its place any ASCII text that agrees with it up
/// to ASCII case gives a link with that text as its segment and the same info-hash.
pub proof fn law_hash_keeps_under_case_change(m: Seq<char>, seg: Seq<char>)
    requires
        btih_segment_spec(m) is Some,
        is_ascii_chars(btih_segment_spec(m)->0),
        is_ascii_chars(seg),
        eq_ignore_ascii_case(btih_segment_spec(m)->0, seg),
    ensures
        btih_segment_spec(with_hash_segment(m, seg)) == Some(seg),
        magnet_hash(with_hash_segment(m, seg)) == magnet_hash(m),
{
    let marker = btih_marker();
    let p = find_first(m, marker)->0;
    let old_seg = btih_segment_spec(m)->0;
    let rest = m.subrange(p + 12, m.len() as int);
    lemma_find_from_range(m, marker, 0);
    lemma_before_amp_split(rest);
    let tail = rest.subrange(old_seg.len() as int, rest.len() as int);
    let m2 = with_hash_segment(m, seg);
    assert(tail =~= m.subrange(p + 12 + old_seg.len(), m.len() as int));
    assert(m2 =~= m.subrange(0, p + 12) + (seg + tail));
    // The segment that replaces the old one has no `&` either.
    assert forall|k: int| 0 <= k < seg.len() implies #[trigger] seg[k] != '&' by {
        if seg[k] == '&' {
            assert(ascii_folded(seg[k]) == 0x26);
            assert(ascii_folded(old_seg[k]) == 0x26);
            vstd::utf8::char_u32_cast(old_seg[k], old_seg[k] as u32);
            assert(old_seg[k] == '&');
            assert(old_seg.contains('&'));
        }
    }
    // The marker is first found where it was: the text up to its end is unchanged.
    assert forall|k: int| 0 <= k < p + 12 implies #[trigger] m2[k] == m[k] by {}
    assert forall|k: int| 0 <= k <= p implies #[trigger] m2.subrange(k, k + 12) == m.subrange(
        k,
        k + 12,
    ) by {
        assert(m2.subrange(k, k + 12) =~= m.subrange(k, k + 12));
    }
    assert forall|k: int| 0 <= k < p implies !#[trigger] occurs_at(m2, marker, k) by {
        assert(!occurs_at(m, marker, k));
        assert(m2.subrange(k, k + 12) == m.subrange(k, k + 12));
    }
    assert(m2.subrange(p, p + 12) == m.subrange(p, p + 12));
    lemma_find_from_at(m2, marker, 0, p);
    assert(m2.subrange(p + 12, m2.len() as int) =~= seg + tail);
    lemma_before_amp(seg, tail);
    law_hash_ignores_ascii_case(m, m2);
}

/// In a link written as `magnet:?dn=...`, the name field is first found right after
/// `magnet:?`.
proof fn lemma_name_after_scheme(rest: Seq<char>)
    ensures
        find_first(magnet_scheme() + name_marker() + rest, name_marker()) == Some(8int),
{
    let head = magnet_scheme() + name_marker();
    let link = head + rest;
    assert(head.len() == 11);
    assert forall|k: int| 0 <= k < 8 implies link[k] != 'd' by {
        assert(link[k] == head[k]);
        assert(head[k] == magnet_scheme()[k]);
    }
    assert forall|k: int| 0 <= k < 8 implies !#[trigger] occurs_at(link, name_marker(), k) by {
        if occurs_at(link, name_marker(), k) {
            assert(link.subrange(k, k + 3)[0] == link[k]);
            assert(name_marker()[0] == 'd');
        }
    }
    assert forall|k: int| 0 <= k < 3 implies link[8 + k] == name_marker()[k] by {
        assert(link[8 + k] == head[8 + k]);
    }
    assert(link.subrange(8, 11) =~= name_marker());
    lemma_find_from_at(link, name_marker(), 0, 8);
}

/// A name written into a link reads back: for every text `n`, the display name of
/// `magnet:?dn=` followed by `n` percent-encoded byte by byte (so that a `&`, `%` or `+`
/// in it is escaped), and then nothing or further `&`-fields, is `n` itself.
pub proof fn law_display_name_of_written_link(n: Seq<char>, tail: Seq<char>)
    requires
        tail.len() == 0 || tail[0] == '&',
    ensures
        magnet_display_name(
            magnet_scheme() + name_marker() + percent_encoded(encode_utf8(n)) + tail,
        ) == n,
{
    let pe = percent_encoded(encode_utf8(n));
    let link = magnet_scheme() + name_marker() + pe + tail;
    assert(link =~= magnet_scheme() + name_marker() + (pe + tail));
    lemma_name_after_scheme(pe + tail);
    assert(link.subrange(11, link.len() as int) =~= pe + tail);
    lemma_percent_encoded(encode_utf8(n));
    lemma_before_amp(pe, tail);
    lemma_url_decoded_of_encoded(n);
}

} // verus!
