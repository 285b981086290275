//! Masked byte-pattern search and the rolling XOR stream decoder.

use vstd::prelude::*;

verus! {

/// One position of a search pattern: `None` matches any byte, `Some(b)` only `b`.
pub type PatternByte = Option<u8>;

/// Whether `c` separates the tokens of a pattern (the Unicode white space characters).
pub open spec fn is_pattern_space(c: char) -> bool {
    let u = c as u32;
    ||| 0x09 <= u <= 0x0d
    ||| u == 0x20
    ||| u == 0x85
    ||| u == 0xa0
    ||| u == 0x1680
    ||| 0x2000 <= u <= 0x200a
    ||| u == 0x2028
    ||| u == 0x2029
    ||| u == 0x202f
    ||| u == 0x205f
    ||| u == 0x3000
}

/// The value of a hexadecimal digit, in either case.
pub open spec fn hex_digit_value(c: char) -> Option<u8> {
    let u = c as u32;
    if 0x30 <= u <= 0x39 {
        Some((u - 0x30) as u8)
    } else if 0x41 <= u <= 0x46 {
        Some((u - 0x41 + 10) as u8)
    } else if 0x61 <= u <= 0x66 {
        Some((u - 0x61 + 10) as u8)
    } else {
        None
    }
}

/// What one token stands for: `??` is the wildcard, two hexadecimal digits are
/// a byte value, anything else is malformed.
pub open spec fn token_value(token: Seq<char>) -> Option<PatternByte> {
    if token.len() != 2 {
        None
    } else if token[0] == '?' && token[1] == '?' {
        Some(None)
    } else {
        match (hex_digit_value(token[0]), hex_digit_value(token[1])) {
            (Some(hi), Some(lo)) => Some(Some((hi * 16 + lo) as u8)),
            _ => None,
        }
    }
}

/// Length of the run of non-space characters that `s` starts with.
pub open spec fn token_len(s: Seq<char>) -> nat
    decreases s.len(),
{
    if s.len() == 0 || is_pattern_space(s[0]) {
        0
    } else {
        1 + token_len(s.skip(1))
    }
}

/// A token is no longer than the text it starts, and not empty where the text
/// starts with a character that is no space.
pub proof fn lemma_token_len_bounds(s: Seq<char>)
    ensures
        token_len(s) <= s.len(),
        s.len() > 0 && !is_pattern_space(s[0]) ==> token_len(s) >= 1,
    decreases s.len(),
{
    if s.len() > 0 && !is_pattern_space(s[0]) {
        lemma_token_len_bounds(s.skip(1));
    }
}

/// The pattern that a needle denotes: its white-space separated tokens, each
/// taken by `token_value`. `None` when some token is malformed.
pub open spec fn pattern_of(needle: Seq<char>) -> Option<Seq<PatternByte>>
    decreases needle.len(),
{
    if needle.len() == 0 {
        Some(Seq::empty())
    } else if is_pattern_space(needle[0]) {
        pattern_of(needle.skip(1))
    } else {
        let n = token_len(needle) as int;
        proof {
            lemma_token_len_bounds(needle);
        }
        match (token_value(needle.take(n)), pattern_of(needle.skip(n))) {
            (Some(v), Some(rest)) => Some(seq![v] + rest),
            _ => None,
        }
    }
}

/// Whether pattern position `p` accepts the byte `b`.
pub open spec fn byte_matches(p: PatternByte, b: u8) -> bool {
    p is None || p == Some(b)
}

/// Whether `pattern` matches `haystack` in the window that starts at `at`.
pub open spec fn matches_at(haystack: Seq<u8>, pattern: Seq<PatternByte>, at: int) -> bool {
    &&& 0 <= at
    &&& at + pattern.len() <= haystack.len()
    &&& forall|j: int| 0 <= j < pattern.len() ==> byte_matches(#[trigger] pattern[j], haystack[at + j])
}

/// Whether `found` is the answer of a search: the lowest window that matches,
/// or nothing when no window does.
pub open spec fn is_first_match(
    haystack: Seq<u8>,
    pattern: Seq<PatternByte>,
    found: Option<usize>,
) -> bool {
    match found {
        Some(at) => matches_at(haystack, pattern, at as int) && forall|k: int|
            0 <= k < at ==> !matches_at(haystack, pattern, k),
        None => forall|k: int| !matches_at(haystack, pattern, k),
    }
}

/// The lowest index at which `pattern` matches `haystack`, if it matches.
#[verifier::opaque]
pub open spec fn first_match(haystack: Seq<u8>, pattern: Seq<PatternByte>) -> Option<int> {
    if exists|k: int| matches_at(haystack, pattern, k) {
        Some(
            choose|k: int|
                matches_at(haystack, pattern, k) && forall|j: int|
                    0 <= j < k ==> !matches_at(haystack, pattern, j),
        )
    } else {
        None
    }
}

/// The answer of a search is the lowest index at which the pattern matches.
pub proof fn lemma_first_match(haystack: Seq<u8>, pattern: Seq<PatternByte>, found: Option<usize>)
    requires
        is_first_match(haystack, pattern, found),
    ensures
        first_match(haystack, pattern) == match found {
            Some(at) => Some(at as int),
            None => None,
        },
{
    reveal(first_match);
    if let Some(at) = found {
        let k = choose|k: int|
            matches_at(haystack, pattern, k) && forall|j: int|
                0 <= j < k ==> !matches_at(haystack, pattern, j);
        assert(matches_at(haystack, pattern, at as int));
        if k < at {
            assert(!matches_at(haystack, pattern, k));
        }
    }
}

fn is_space(c: char) -> (r: bool)
    ensures
        r == is_pattern_space(c),
{
    let u: u32 = c as u32;
    (0x09 <= u && u <= 0x0d) || u == 0x20 || u == 0x85 || u == 0xa0 || u == 0x1680 || (0x2000 <= u
        && u <= 0x200a) || u == 0x2028 || u == 0x2029 || u == 0x202f || u == 0x205f || u == 0x3000
}

fn hex_digit(c: char) -> (r: Option<u8>)
    ensures
        r == hex_digit_value(c),
{
    let u: u32 = c as u32;
    if 0x30 <= u && u <= 0x39 {
        Some((u - 0x30) as u8)
    } else if 0x41 <= u && u <= 0x46 {
        Some((u - 0x41 + 10) as u8)
    } else if 0x61 <= u && u <= 0x66 {
        Some((u - 0x61 + 10) as u8)
    } else {
        None
    }
}

fn chars_of(s: &str) -> (v: Vec<char>)
    ensures
        v@ == s@,
{
    broadcast use vstd::string::axiom_spec_iter;

    let mut v: Vec<char> = Vec::new();
    let chars = s.chars();
    for c in it: chars
        invariant
            it.seq() == s@,
            v@ == it.history(),
    {
        v.push(c);
    }
    assert(v@ =~= s@);
    v
}

/// The token that starts at `i` ends at `j` when no character in between is a
/// space and `j` is the end of the text or a space.
proof fn lemma_token_len_run(s: Seq<char>, i: int, j: int)
    requires
        0 <= i <= j <= s.len(),
        forall|k: int| i <= k < j ==> !is_pattern_space(#[trigger] s[k]),
        j == s.len() || is_pattern_space(s[j]),
    ensures
        token_len(s.skip(i)) == j - i,
    decreases j - i,
{
    if i < j {
        assert(s.skip(i).skip(1) =~= s.skip(i + 1));
        lemma_token_len_run(s, i + 1, j);
    }
}

fn parse_token(first: char, second: char) -> (r: Option<PatternByte>)
    ensures
        r == token_value(seq![first, second]),
{
    if first == '?' && second == '?' {
        Some(None)
    } else {
        match (hex_digit(first), hex_digit(second)) {
            (Some(hi), Some(lo)) => Some(Some(hi * 16 + lo)),
            _ => None,
        }
    }
}

/// Reads a pattern: tokens separated by white space, each `??` or two
/// hexadecimal digits. `None` when a token is anything else.
pub fn parse_pattern(needle: &str) -> (parsed: Option<Vec<PatternByte>>)
    ensures
        match parsed {
            Some(p) => pattern_of(needle@) == Some(p@),
            None => pattern_of(needle@) is None,
        },
{
    let chars = chars_of(needle);
    let n = chars.len();
    let mut out: Vec<PatternByte> = Vec::new();
    let mut i: usize = 0;
    proof {
        assert(needle@.skip(0) =~= needle@);
        assert(pattern_of(needle@) matches Some(rest) ==> out@ + rest =~= rest);
    }
    while i < n
        invariant
            chars@ == needle@,
            n == chars.len(),
            i <= n,
            pattern_of(needle@) == match pattern_of(needle@.skip(i as int)) {
                Some(rest) => Some(out@ + rest),
                None => None,
            },
        decreases n - i,
    {
        let ghost tail = needle@.skip(i as int);
        if is_space(chars[i]) {
            proof {
                assert(tail.skip(1) =~= needle@.skip(i + 1));
            }
            i += 1;
        } else {
            let mut j: usize = i + 1;
            while j < n && !is_space(chars[j])
                invariant
                    chars@ == needle@,
                    n == chars.len(),
                    i < j <= n,
                    forall|k: int| i <= k < j ==> !is_pattern_space(#[trigger] chars@[k]),
                decreases n - j,
            {
                j += 1;
            }
            proof {
                lemma_token_len_run(needle@, i as int, j as int);
                assert(tail.skip(j - i) =~= needle@.skip(j as int));
            }
            if j - i != 2 {
                return None;
            }
            proof {
                assert(tail.take(2) =~= seq![chars@[i as int], chars@[i + 1]]);
            }
            match parse_token(chars[i], chars[i + 1]) {
                None => {
                    return None;
                },
                Some(v) => {
                    proof {
                        assert(pattern_of(needle@.skip(j as int)) matches Some(rest) ==> out@ + (seq![v]
                            + rest) =~= out@.push(v) + rest);
                    }
                    out.push(v);
                    i = j;
                },
            }
        }
    }
    proof {
        assert(out@ + Seq::<PatternByte>::empty() =~= out@);
    }
    Some(out)
}

fn window_matches(haystack: &[u8], pattern: &[PatternByte], at: usize) -> (r: bool)
    requires
        at + pattern@.len() <= haystack@.len(),
    ensures
        r == matches_at(haystack@, pattern@, at as int),
{
    let n = pattern.len();
    let h = haystack.len();
    let mut j: usize = 0;
    while j < n
        invariant
            n == pattern@.len(),
            h == haystack@.len(),
            j <= n,
            at + n <= h,
            forall|k: int| 0 <= k < j ==> byte_matches(#[trigger] pattern@[k], haystack@[at + k]),
        decreases n - j,
    {
        let accepted = match pattern[j] {
            Some(b) => b == haystack[at + j],
            None => true,
        };
        if !accepted {
            return false;
        }
        j += 1;
    }
    true
}

/// Searches `haystack` for the lowest window that `pattern` matches.
pub fn find_pattern(haystack: &[u8], pattern: &[PatternByte]) -> (found: Option<usize>)
    ensures
        is_first_match(haystack@, pattern@, found),
{
    let n = pattern.len();
    let h = haystack.len();
    if n == 0 {
        return Some(0);
    }
    if n > h {
        return None;
    }
    let last = h - n;
    let mut at: usize = 0;
    while at <= last
        invariant
            n == pattern@.len(),
            h == haystack@.len(),
            0 < n <= h,
            last == h - n,
            at <= last + 1,
            forall|k: int| 0 <= k < at ==> !matches_at(haystack@, pattern@, k),
        decreases last + 1 - at,
    {
        if window_matches(haystack, pattern, at) {
            return Some(at);
        }
        at += 1;
    }
    None
}

/// Searches `haystack` for the pattern that `needle` writes out as tokens
/// separated by white space, `??` for any byte and two hexadecimal digits for
/// one byte value. Gives the lowest index at which the pattern matches; an
/// empty pattern matches at index 0.
pub fn find_infix_windows(haystack: &[u8], needle: &str) -> (found: Option<usize>)
    requires
        pattern_of(needle@) is Some,
    ensures
        is_first_match(haystack@, pattern_of(needle@)->0, found),
{
    match parse_pattern(needle) {
        Some(pattern) => find_pattern(haystack, pattern.as_slice()),
        None => None,
    }
}

/// The little-endian 32-bit word that `s` holds at byte offset `at`.
pub open spec fn le_word(s: Seq<u8>, at: int) -> u32 {
    (s[at] as u32) | (s[at + 1] as u32) << 8 | (s[at + 2] as u32) << 16 | (s[at + 3] as u32) << 24
}

/// The little-endian 16-bit value that `s` holds at byte offset `at`.
pub open spec fn le_half(s: Seq<u8>, at: int) -> u16 {
    (s[at] as u16) | (s[at + 1] as u16) << 8
}

/// The little-endian 64-bit value that `s` holds at byte offset `at`.
pub open spec fn le_quad(s: Seq<u8>, at: int) -> u64 {
    (le_word(s, at) as u64) | (le_word(s, at + 4) as u64) << 32
}

/// Byte `k` (0 to 3) of the little-endian form of `word`.
pub open spec fn le_byte(word: u32, k: int) -> u8 {
    if k == 0 {
        (word & 0xff) as u8
    } else if k == 1 {
        ((word >> 8) & 0xff) as u8
    } else if k == 2 {
        ((word >> 16) & 0xff) as u8
    } else {
        ((word >> 24) & 0xff) as u8
    }
}

/// Reads the little-endian 32-bit word at byte offset `at`.
pub fn read_le_word(data: &[u8], at: usize) -> (word: u32)
    requires
        at + 4 <= data@.len(),
    ensures
        word == le_word(data@, at as int),
{
    (data[at] as u32) | (data[at + 1] as u32) << 8 | (data[at + 2] as u32) << 16 | (data[at + 3] as u32) << 24
}

/// Reads the little-endian 16-bit value at byte offset `at`.
pub fn read_le_half(data: &[u8], at: usize) -> (half: u16)
    requires
        at + 2 <= data@.len(),
    ensures
        half == le_half(data@, at as int),
{
    (data[at] as u16) | (data[at + 1] as u16) << 8
}

/// Reads the little-endian 64-bit value at byte offset `at`.
pub fn read_le_quad(data: &[u8], at: usize) -> (quad: u64)
    requires
        at + 8 <= data@.len(),
    ensures
        quad == le_quad(data@, at as int),
{
    assert(at + 8 <= data.len());
    (read_le_word(data, at) as u64) | (read_le_word(data, at + 4) as u64) << 32
}

/// Offset of the first word that is decoded: a zero key takes the first word
/// of the buffer as the key and leaves it in place.
pub open spec fn xor_start(key: u32) -> int {
    if key == 0 {
        4
    } else {
        0
    }
}

/// The key that decoding starts with.
pub open spec fn xor_seed(data: Seq<u8>, key: u32) -> u32 {
    if key == 0 {
        le_word(data, 0)
    } else {
        key
    }
}

/// The key under which the word at offset `at` is decoded: the seed for the
/// first word, the stored word before it for every other.
pub open spec fn xor_key_at(data: Seq<u8>, key: u32, at: int) -> u32 {
    if at <= xor_start(key) {
        xor_seed(data, key)
    } else {
        le_word(data, at - 4)
    }
}

/// The buffer after decoding its first `size` bytes under `key`.
pub open spec fn steam_xor_bytes(data: Seq<u8>, size: int, key: u32) -> Seq<u8> {
    Seq::new(
        data.len(),
        |j: int|
            if xor_start(key) <= j < size {
                le_byte(le_word(data, j - j % 4) ^ xor_key_at(data, key, j - j % 4), j % 4)
            } else {
                data[j]
            },
    )
}

/// The key that decoding the first `size` bytes under `key` ends with.
pub open spec fn steam_xor_key(data: Seq<u8>, size: int, key: u32) -> u32 {
    xor_key_at(data, key, if size < xor_start(key) { xor_start(key) } else { size })
}

/// Decodes the first `size` bytes of `data` in place, as little-endian 32-bit
/// words: each word is replaced by itself XOR the key, and the word as it was
/// stored becomes the key of the next. With a zero `key` the first word of the
/// buffer is the key and stays as it is. Returns the last key, with which a
/// later call goes on where this one ended.
pub fn steam_xor(data: &mut [u8], size: u32, key: u32) -> (last: u32)
    requires
        size % 4 == 0,
        size <= old(data)@.len(),
        key == 0 ==> 4 <= old(data)@.len(),
    ensures
        final(data)@ == steam_xor_bytes(old(data)@, size as int, key),
        last == steam_xor_key(old(data)@, size as int, key),
{
    let ghost before = data@;
    let mut x: u32 = 0;
    let mut cur: u32 = key;
    if key == 0 {
        x = 4;
        cur = read_le_word(data, 0);
    }
    assert(data@ =~= Seq::new(
        before.len(),
        |j: int|
            if xor_start(key) <= j < x {
                le_byte(le_word(before, j - j % 4) ^ xor_key_at(before, key, j - j % 4), j % 4)
            } else {
                before[j]
            },
    ));
    while x < size
        invariant
            size % 4 == 0,
            x % 4 == 0,
            size <= before.len(),
            xor_start(key) <= x,
            x <= size || x == xor_start(key),
            data@.len() == before.len(),
            cur == xor_key_at(before, key, x as int),
            data@ == Seq::new(
                before.len(),
                |j: int|
                    if xor_start(key) <= j < x {
                        le_byte(
                            le_word(before, j - j % 4) ^ xor_key_at(before, key, j - j % 4),
                            j % 4,
                        )
                    } else {
                        before[j]
                    },
            ),
        decreases size - x,
    {
        let at = x as usize;
        let stored = read_le_word(data, at);
        assert(stored == le_word(before, x as int));
        let plain = stored ^ cur;
        data[at] = (plain & 0xff) as u8;
        data[at + 1] = ((plain >> 8) & 0xff) as u8;
        data[at + 2] = ((plain >> 16) & 0xff) as u8;
        data[at + 3] = ((plain >> 24) & 0xff) as u8;
        cur = stored;
        x += 4;
        assert(data@ =~= Seq::new(
            before.len(),
            |j: int|
                if xor_start(key) <= j < x {
                    le_byte(le_word(before, j - j % 4) ^ xor_key_at(before, key, j - j % 4), j % 4)
                } else {
                    before[j]
                },
        ));
    }
    assert(data@ =~= steam_xor_bytes(before, size as int, key));
    cur
}

/// Whether `needle` writes `pattern` out token by token, with one space
/// between two tokens and nothing around them.
pub open spec fn spells(needle: Seq<char>, pattern: Seq<PatternByte>) -> bool {
    &&& needle.len() + 1 == 3 * pattern.len()
    &&& forall|k: int|
        0 <= k < pattern.len() ==> token_value(seq![needle[3 * k], needle[3 * k + 1]]) == Some(
            #[trigger] pattern[k],
        ) && (k + 1 < pattern.len() ==> needle[3 * k + 2] == ' ')
}

/// A needle denotes the pattern that it spells.
pub proof fn lemma_spelled_pattern(needle: Seq<char>, pattern: Seq<PatternByte>)
    requires
        spells(needle, pattern),
    ensures
        pattern_of(needle) == Some(pattern),
    decreases pattern.len(),
{
    let v = pattern[0];
    assert(token_value(seq![needle[0], needle[1]]) == Some(v));
    assert(needle.take(2) =~= seq![needle[0], needle[1]]);
    assert(!is_pattern_space(needle[0]) && !is_pattern_space(needle[1]));
    lemma_token_len_run(needle, 0, 2);
    assert(needle.skip(0) =~= needle);
    assert(token_len(needle) == 2);
    if pattern.len() == 1 {
        assert(needle.skip(2) =~= Seq::<char>::empty());
        assert(pattern_of(needle.skip(2)) == Some(Seq::<PatternByte>::empty()));
        assert(seq![v] + Seq::<PatternByte>::empty() =~= pattern);
    } else {
        assert(is_pattern_space(needle.skip(2)[0]));
        assert(pattern_of(needle.skip(2)) == pattern_of(needle.skip(2).skip(1)));
        let rest_needle = needle.skip(3);
        let rest = pattern.skip(1);
        assert forall|k: int| 0 <= k < rest.len() implies token_value(
            seq![rest_needle[3 * k], rest_needle[3 * k + 1]],
        ) == Some(#[trigger] rest[k]) && (k + 1 < rest.len() ==> rest_needle[3 * k + 2] == ' ') by {
            assert(rest[k] == pattern[k + 1]);
            assert(rest_needle[3 * k] == needle[3 * (k + 1)]);
            assert(rest_needle[3 * k + 1] == needle[3 * (k + 1) + 1]);
        }
        lemma_spelled_pattern(rest_needle, rest);
        assert(needle.skip(2).skip(1) =~= rest_needle);
        assert(seq![v] + rest =~= pattern);
    }
}

/// A search has one answer.
pub proof fn lemma_first_match_unique(
    haystack: Seq<u8>,
    pattern: Seq<PatternByte>,
    a: Option<usize>,
    b: Option<usize>,
)
    requires
        is_first_match(haystack, pattern, a),
        is_first_match(haystack, pattern, b),
    ensures
        a == b,
{
}

/// A pattern of wildcards only that is no longer than the buffer is found at
/// index 0.
pub proof fn lemma_wildcards_found_at_start(
    haystack: Seq<u8>,
    pattern: Seq<PatternByte>,
    found: Option<usize>,
)
    requires
        forall|j: int| 0 <= j < pattern.len() ==> (#[trigger] pattern[j]) is None,
        pattern.len() <= haystack.len(),
        is_first_match(haystack, pattern, found),
    ensures
        found == Some(0usize),
{
    assert(matches_at(haystack, pattern, 0));
}

/// The empty pattern is found at index 0 of every buffer, the empty one too.
pub proof fn lemma_empty_pattern_found_at_start(
    haystack: Seq<u8>,
    pattern: Seq<PatternByte>,
    found: Option<usize>,
)
    requires
        pattern.len() == 0,
        is_first_match(haystack, pattern, found),
    ensures
        found == Some(0usize),
{
    assert(matches_at(haystack, pattern, 0));
}

/// A needle of white space only denotes the empty pattern.
pub proof fn lemma_blank_needle_is_empty_pattern(needle: Seq<char>)
    requires
        forall|i: int| 0 <= i < needle.len() ==> is_pattern_space(#[trigger] needle[i]),
    ensures
        pattern_of(needle) == Some(Seq::<PatternByte>::empty()),
    decreases needle.len(),
{
    if needle.len() > 0 {
        assert forall|i: int| 0 <= i < needle.skip(1).len() implies is_pattern_space(
            #[trigger] needle.skip(1)[i],
        ) by {
            assert(needle.skip(1)[i] == needle[i + 1]);
        }
        lemma_blank_needle_is_empty_pattern(needle.skip(1));
    }
}

/// Where no window of the buffer matches, nothing is found; so it is for
/// every pattern that is longer than the buffer.
pub proof fn lemma_no_window_not_found(
    haystack: Seq<u8>,
    pattern: Seq<PatternByte>,
    found: Option<usize>,
)
    requires
        pattern.len() > haystack.len() || forall|k: int| !matches_at(haystack, pattern, k),
        is_first_match(haystack, pattern, found),
    ensures
        found is None,
{
}

/// The four little-endian bytes of a word give the word back.
pub proof fn lemma_le_word_of_bytes(s: Seq<u8>, at: int, word: u32)
    requires
        s[at] == le_byte(word, 0),
        s[at + 1] == le_byte(word, 1),
        s[at + 2] == le_byte(word, 2),
        s[at + 3] == le_byte(word, 3),
    ensures
        le_word(s, at) == word,
{
    assert((((word & 0xff) as u8) as u32) | ((((word >> 8) & 0xff) as u8) as u32) << 8 | ((((word
        >> 16) & 0xff) as u8) as u32) << 16 | ((((word >> 24) & 0xff) as u8) as u32) << 24 == word)
        by (bit_vector);
}

/// The little-endian bytes of the word read at `at` are the bytes at `at`.
pub proof fn lemma_le_bytes_of_word(s: Seq<u8>, at: int)
    ensures
        le_byte(le_word(s, at), 0) == s[at],
        le_byte(le_word(s, at), 1) == s[at + 1],
        le_byte(le_word(s, at), 2) == s[at + 2],
        le_byte(le_word(s, at), 3) == s[at + 3],
{
    let b0 = s[at];
    let b1 = s[at + 1];
    let b2 = s[at + 2];
    let b3 = s[at + 3];
    assert({
        let w = (b0 as u32) | (b1 as u32) << 8 | (b2 as u32) << 16 | (b3 as u32) << 24;
        &&& (w & 0xff) as u8 == b0
        &&& ((w >> 8) & 0xff) as u8 == b1
        &&& ((w >> 16) & 0xff) as u8 == b2
        &&& ((w >> 24) & 0xff) as u8 == b3
    }) by (bit_vector);
}

/// The word that encoding stores at offset `at`: the plain word XOR the key,
/// which is `key` for the first word and the stored word before it for every
/// other.
pub open spec fn xor_stored_word(plain: Seq<u8>, key: u32, at: int) -> u32
    decreases at,
{
    if at < 4 {
        le_word(plain, 0) ^ key
    } else {
        le_word(plain, at) ^ xor_stored_word(plain, key, at - 4)
    }
}

/// The buffer that decodes to `plain` under `key`.
pub open spec fn steam_xor_encoded(plain: Seq<u8>, key: u32) -> Seq<u8> {
    Seq::new(plain.len(), |j: int| le_byte(xor_stored_word(plain, key, j - j % 4), j % 4))
}

/// The word that the encoded buffer holds at a word offset is the stored word.
proof fn lemma_encoded_word(plain: Seq<u8>, key: u32, at: int)
    requires
        0 <= at,
        at % 4 == 0,
        at + 4 <= plain.len(),
    ensures
        le_word(steam_xor_encoded(plain, key), at) == xor_stored_word(plain, key, at),
{
    lemma_le_word_of_bytes(steam_xor_encoded(plain, key), at, xor_stored_word(plain, key, at));
}

/// One byte of the round trip.
proof fn lemma_steam_xor_round_trip_at(plain: Seq<u8>, key: u32, j: int)
    requires
        plain.len() % 4 == 0,
        0 <= j < plain.len(),
    ensures
        steam_xor_bytes(steam_xor_encoded(plain, key), plain.len() as int, key)[j] == plain[j],
{
    let stored = steam_xor_encoded(plain, key);
    let a = j - j % 4;
    let p = le_word(plain, a);
    lemma_le_bytes_of_word(plain, a);
    lemma_encoded_word(plain, key, a);
    if a == 0 {
        assert((p ^ key) ^ key == p) by (bit_vector);
        assert(p ^ 0 == p) by (bit_vector);
    } else {
        let prev = xor_stored_word(plain, key, a - 4);
        lemma_encoded_word(plain, key, a - 4);
        assert((p ^ prev) ^ prev == p) by (bit_vector);
    }
}

/// Decoding what was encoded under the same key gives the plain bytes back,
/// for every buffer of one word or more.
pub proof fn lemma_steam_xor_round_trip(plain: Seq<u8>, key: u32)
    requires
        plain.len() % 4 == 0,
        plain.len() >= 4,
    ensures
        steam_xor_bytes(steam_xor_encoded(plain, key), plain.len() as int, key) == plain,
{
    let decoded = steam_xor_bytes(steam_xor_encoded(plain, key), plain.len() as int, key);
    assert forall|j: int| 0 <= j < plain.len() implies decoded[j] == plain[j] by {
        lemma_steam_xor_round_trip_at(plain, key, j);
    }
    assert(decoded =~= plain);
}

/// Decoding two adjoining buffers one after the other, the second under the
/// key that the first call returned, gives what decoding both as one buffer
/// gives: the same bytes and the same last key. Each call must be one that
/// `steam_xor` allows: under a zero key its buffer holds a first word.
pub proof fn lemma_steam_xor_chains(a: Seq<u8>, b: Seq<u8>, key: u32)
    requires
        a.len() % 4 == 0,
        b.len() % 4 == 0,
        key == 0 ==> a.len() >= 4,
        steam_xor_key(a, a.len() as int, key) == 0 ==> b.len() >= 4,
    ensures
        steam_xor_bytes(a + b, (a.len() + b.len()) as int, key) == steam_xor_bytes(
            a,
            a.len() as int,
            key,
        ) + steam_xor_bytes(b, b.len() as int, steam_xor_key(a, a.len() as int, key)),
        steam_xor_key(a + b, (a.len() + b.len()) as int, key) == steam_xor_key(
            b,
            b.len() as int,
            steam_xor_key(a, a.len() as int, key),
        ),
{
    let n = a.len() as int;
    let m = b.len() as int;
    let ab = a + b;
    let mid = steam_xor_key(a, n, key);
    let whole = steam_xor_bytes(ab, n + m, key);
    let parts = steam_xor_bytes(a, n, key) + steam_xor_bytes(b, m, mid);
    assert forall|at: int| 0 <= at && at + 4 <= n implies le_word(ab, at) == #[trigger] le_word(
        a,
        at,
    ) by {}
    assert forall|at: int| 0 <= at && at + 4 <= m implies le_word(ab, n + at) == #[trigger] le_word(
        b,
        at,
    ) by {
        assert(ab[n + at] == b[at]);
        assert(ab[n + at + 1] == b[at + 1]);
        assert(ab[n + at + 2] == b[at + 2]);
        assert(ab[n + at + 3] == b[at + 3]);
    }
    assert(xor_key_at(ab, key, n) == mid);
    assert forall|j: int| 0 <= j < n + m implies whole[j] == parts[j] by {
        if j >= n {
            let i = j - n;
            let at = i - i % 4;
            assert(j - j % 4 == n + at);
            assert(j % 4 == i % 4);
            assert(le_word(ab, n + at) == le_word(b, at));
            lemma_le_bytes_of_word(b, at);
            let w = le_word(b, at);
            assert(w ^ 0 == w) by (bit_vector);
            if at >= 4 {
                assert(le_word(ab, n + at - 4) == le_word(b, at - 4));
            }
        } else {
            let at = j - j % 4;
            assert(le_word(ab, at) == le_word(a, at));
            if at >= 4 {
                assert(le_word(ab, at - 4) == le_word(a, at - 4));
            }
        }
    }
    assert(whole =~= parts);
    if m >= 4 {
        assert(le_word(ab, n + (m - 4)) == le_word(b, m - 4));
    }
}

} // verus!
