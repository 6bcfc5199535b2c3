//! Room codes: twelve symbols of Crockford base32, read aloud as
//! `XXXX-XXXX-XXXX`.
//!
//! The alphabet is the ten digits and the letters without `I`, `L`, `O` and
//! `U`, so a code survives a voice channel; twelve symbols of five bits carry
//! the low sixty bits of a `u64`.
use vstd::prelude::*;
use crate::naming::concat;
use crate::scene_file::slice_of;
use crate::text::{chars_of, string_of};

verus! {

/// Symbols in a room code.
pub const CODE_SYMBOLS: usize = 12;

/// The unicode code point of the symbol worth `v`: the digits, then `A`..`H`,
/// `J`, `K`, `M`, `N`, `P`..`T`, `V`..`Z`.
pub open spec fn symbol_point(v: int) -> int {
    if v < 10 {
        48 + v
    } else if v < 18 {
        55 + v
    } else if v < 20 {
        56 + v
    } else if v < 22 {
        57 + v
    } else if v < 27 {
        58 + v
    } else {
        59 + v
    }
}

/// The symbol worth `v`, for `0 <= v < 32`.
pub open spec fn symbol(v: int) -> char {
    symbol_point(v) as char
}

/// Whether `c` is one of the thirty-two symbols.
pub open spec fn is_code_symbol(c: char) -> bool {
    ||| '0' <= c <= '9'
    ||| ('A' <= c <= 'Z' && c != 'I' && c != 'L' && c != 'O' && c != 'U')
}

/// The five bits that symbol `i` (counted from the least significant end)
/// carries.
pub open spec fn digit(bits: u64, i: nat) -> u64 {
    (bits >> ((5 * i) as u64)) & 31u64
}

/// The low `n` symbols of `bits`, most significant first.
pub open spec fn encoded(bits: u64, n: nat) -> Seq<char> {
    Seq::new(n, |k: int| symbol(digit(bits, (n - 1 - k) as nat) as int))
}

/// The symbol worth `v`.
pub fn symbol_of(v: u64) -> (c: char)
    requires
        v < 32,
    ensures
        c == symbol(v as int),
{
    let point: u64 = if v < 10 {
        48 + v
    } else if v < 18 {
        55 + v
    } else if v < 20 {
        56 + v
    } else if v < 22 {
        57 + v
    } else if v < 27 {
        58 + v
    } else {
        59 + v
    };
    let b: u8 = point as u8;
    b as char
}

/// The thirty-two symbols, in the order of the values they stand for.
pub fn code_alphabet() -> (alphabet: Vec<char>)
    ensures
        alphabet@ == Seq::new(32, |v: int| symbol(v)),
{
    let mut alphabet: Vec<char> = Vec::new();
    let mut v: u64 = 0;
    while v < 32
        invariant
            v <= 32,
            alphabet@ == Seq::new(v as nat, |w: int| symbol(w)),
        decreases 32 - v,
    {
        alphabet.push(symbol_of(v));
        v = v + 1;
        assert(alphabet@ =~= Seq::new(v as nat, |w: int| symbol(w)));
    }
    alphabet
}

/// `bits` as `symbols` base32 symbols, most significant first.
///
/// The mask is taken per symbol, so a full `u64` is read correctly: symbol
/// `i` is bits `5i .. 5i + 5`.
pub fn encode(bits: u64, symbols: usize) -> (code: String)
    requires
        symbols <= 13,
    ensures
        code@ == encoded(bits, symbols as nat),
{
    let out = encode_chars(bits, symbols);
    string_of(&out)
}

fn encode_chars(bits: u64, symbols: usize) -> (out: Vec<char>)
    requires
        symbols <= 13,
    ensures
        out@ == encoded(bits, symbols as nat),
{
    let mut out: Vec<char> = Vec::new();
    let mut i: usize = symbols;
    while i > 0
        invariant
            i <= symbols <= 13,
            out@.len() == symbols - i,
            forall|k: int| 0 <= k < out@.len() ==> out@[k] == encoded(bits, symbols as nat)[k],
        decreases i,
    {
        i = i - 1;
        let shift: u64 = (i * 5) as u64;
        let v: u64 = (bits >> shift) & 31;
        assert(v < 32) by (bit_vector)
            requires
                v == (bits >> shift) & 31u64,
        ;
        let c = symbol_of(v);
        out.push(c);
    }
    assert(out@ =~= encoded(bits, symbols as nat));
    out
}

/// `s` in three groups of four with a dash between them: the first twelve
/// characters of `s`, as `XXXX-XXXX-XXXX`.
pub open spec fn grouping(s: Seq<char>) -> Seq<char> {
    s.subrange(0, 4) + seq!['-'] + s.subrange(4, 8) + seq!['-'] + s.subrange(8, 12)
}

fn group_chars(symbols: &Vec<char>) -> (out: Vec<char>)
    requires
        symbols@.len() >= 12,
    ensures
        out@ == grouping(symbols@),
{
    let mut out: Vec<char> = Vec::new();
    let mut i: usize = 0;
    while i < 12
        invariant
            i <= 12,
            symbols@.len() >= 12,
            out@ == (if i <= 4 {
                symbols@.subrange(0, i as int)
            } else if i <= 8 {
                symbols@.subrange(0, 4) + seq!['-'] + symbols@.subrange(4, i as int)
            } else {
                symbols@.subrange(0, 4) + seq!['-'] + symbols@.subrange(4, 8) + seq!['-']
                    + symbols@.subrange(8, i as int)
            }),
        decreases 12 - i,
    {
        if i == 4 || i == 8 {
            out.push('-');
        }
        out.push(symbols[i]);
        i = i + 1;
        assert(symbols@.subrange(0, i as int) =~= symbols@.subrange(0, i - 1).push(symbols@[i - 1]));
        if i > 4 {
            assert(symbols@.subrange(4, i as int) =~= symbols@.subrange(4, i - 1).push(symbols@[i - 1]));
        }
        if i > 8 {
            assert(symbols@.subrange(8, i as int) =~= symbols@.subrange(8, i - 1).push(symbols@[i - 1]));
        }
    }
    assert(out@ =~= grouping(symbols@));
    out
}

/// How many bytes `c` takes in UTF-8.
pub open spec fn utf8_width(c: char) -> nat {
    if (c as u32) < 0x80 {
        1
    } else if (c as u32) < 0x800 {
        2
    } else if (c as u32) < 0x10000 {
        3
    } else {
        4
    }
}

/// How many bytes the first `k` characters of `s` take in UTF-8.
pub open spec fn bytes_before(s: Seq<char>, k: int) -> nat
    decreases k,
{
    if k <= 0 || k > s.len() {
        0
    } else {
        bytes_before(s, k - 1) + utf8_width(s[k - 1])
    }
}

/// Whether byte `b` of the UTF-8 text `s` falls between two characters (or
/// at its end), as `str::is_char_boundary` says.
pub open spec fn char_boundary(s: Seq<char>, b: nat) -> bool {
    exists|k: int| 0 <= k <= s.len() && #[trigger] bytes_before(s, k) == b
}

/// How many characters come before byte `b` of `s`, where `b` is a boundary.
pub open spec fn chars_before_byte(s: Seq<char>, b: nat) -> int {
    choose|k: int| 0 <= k <= s.len() && #[trigger] bytes_before(s, k) == b
}

/// The bytes 0 to 4, 4 to 8 and 8 to 12 of `s`, dashed, as
/// `format!("{}-{}-{}", &s[0..4], &s[4..8], &s[8..12])` gives them.
pub open spec fn grouping_bytes(s: Seq<char>) -> Seq<char> {
    let a = chars_before_byte(s, 4);
    let b = chars_before_byte(s, 8);
    let c = chars_before_byte(s, 12);
    s.subrange(0, a) + seq!['-'] + s.subrange(a, b) + seq!['-'] + s.subrange(b, c)
}

proof fn lemma_bytes_grow(s: Seq<char>, j: int, k: int)
    requires
        0 <= j < k <= s.len(),
    ensures
        bytes_before(s, j) < bytes_before(s, k),
    decreases k - j,
{
    if j < k - 1 {
        lemma_bytes_grow(s, j, k - 1);
    }
}

fn width_of(c: char) -> (w: usize)
    ensures
        w == utf8_width(c),
{
    let v = c as u32;
    if v < 0x80 {
        1
    } else if v < 0x800 {
        2
    } else if v < 0x10000 {
        3
    } else {
        4
    }
}

/// The number of characters before byte `b` of `chars`.
fn char_index_at(chars: &Vec<char>, b: usize) -> (k: usize)
    requires
        char_boundary(chars@, b as nat),
        b <= 12,
    ensures
        k <= chars@.len(),
        k as int == chars_before_byte(chars@, b as nat),
{
    let ghost k0 = choose|k: int| 0 <= k <= chars@.len() && #[trigger] bytes_before(chars@, k) == b;
    let n = chars.len();
    let mut k: usize = 0;
    let mut acc: usize = 0;
    while acc < b
        invariant
            n == chars@.len(),
            0 <= k0 <= chars@.len(),
            bytes_before(chars@, k0) == b,
            b <= 12,
            k <= chars@.len(),
            acc == bytes_before(chars@, k as int),
            acc < b ==> k < k0,
            acc > b ==> k > 0 && bytes_before(chars@, k - 1) < b,
        decreases n - k,
    {
        let w = width_of(chars[k]);
        acc = acc + w;
        k = k + 1;
    }
    proof {
        if k < k0 {
            lemma_bytes_grow(chars@, k as int, k0);
        } else if k > k0 {
            lemma_bytes_grow(chars@, k0, k as int);
            if k - 1 > k0 {
                lemma_bytes_grow(chars@, k0, k - 1);
            }
        }
        assert(k == k0);
        let c = chars_before_byte(chars@, b as nat);
        assert(0 <= c <= chars@.len() && bytes_before(chars@, c) == b);
        if c < k0 {
            lemma_bytes_grow(chars@, c, k0);
        } else if c > k0 {
            lemma_bytes_grow(chars@, k0, c);
        }
    }
    k
}

/// `XXXXXXXXXXXX` as `XXXX-XXXX-XXXX`: bytes 0 to 4, 4 to 8 and 8 to 12,
/// dashed. The text must have character boundaries at those bytes, as
/// slicing it there asks.
pub fn grouped(symbols: &str) -> (code: String)
    requires
        char_boundary(symbols@, 4),
        char_boundary(symbols@, 8),
        char_boundary(symbols@, 12),
    ensures
        code@ == grouping_bytes(symbols@),
{
    let chars = chars_of(symbols);
    let a = char_index_at(&chars, 4);
    let b = char_index_at(&chars, 8);
    let c = char_index_at(&chars, 12);
    proof {
        let (ga, gb, gc) = (a as int, b as int, c as int);
        if ga > gb {
            lemma_bytes_grow(chars@, gb, ga);
        }
        if gb > gc {
            lemma_bytes_grow(chars@, gc, gb);
        }
    }
    let first = slice_of(&chars, 0, a);
    let second = slice_of(&chars, a, b);
    let third = slice_of(&chars, b, c);
    let dash: Vec<char> = vec!['-'];
    let out = concat(&first, &dash);
    let out = concat(&out, &second);
    let out = concat(&out, &dash);
    let out = concat(&out, &third);
    assert(dash@ =~= seq!['-']);
    string_of(&out)
}

/// The room code a value of `bits` is written as: its low sixty bits, grouped.
pub open spec fn code_of(bits: u64) -> Seq<char> {
    grouping(encoded(bits, 12))
}

/// The low sixty bits of `bits` as a room code.
pub fn format_code(bits: u64) -> (code: String)
    ensures
        code@ == code_of(bits),
{
    let symbols = encode_chars(bits, CODE_SYMBOLS);
    let out = group_chars(&symbols);
    string_of(&out)
}

/// What a code must not be allowed to spell. Every entry is spelled in the
/// code alphabet, so every one of them can occur.
pub open spec fn deny_words() -> Seq<Seq<char>> {
    seq![
        seq!['R', 'A', 'P', 'E'],
        seq!['F', 'A', 'G'],
        seq!['K', 'K', 'K'],
        seq!['T', 'W', 'A', 'T'],
        seq!['W', 'A', 'N', 'K'],
        seq!['T', 'A', 'R', 'D'],
        seq!['S', 'P', 'A', 'Z'],
        seq!['P', 'A', 'K', 'Y'],
        seq!['H', 'E', 'E', 'B'],
        seq!['A', 'R', 'S', 'E'],
        seq!['G', 'A', 'S', 'H'],
        seq!['S', 'K', 'A', 'G'],
    ]
}

/// The words a code must not spell, as characters.
pub fn denied_words() -> (words: Vec<Vec<char>>)
    ensures
        words@.len() == deny_words().len(),
        forall|j: int| 0 <= j < words@.len() ==> #[trigger] words@[j]@ == deny_words()[j],
{
    vec![
        vec!['R', 'A', 'P', 'E'],
        vec!['F', 'A', 'G'],
        vec!['K', 'K', 'K'],
        vec!['T', 'W', 'A', 'T'],
        vec!['W', 'A', 'N', 'K'],
        vec!['T', 'A', 'R', 'D'],
        vec!['S', 'P', 'A', 'Z'],
        vec!['P', 'A', 'K', 'Y'],
        vec!['H', 'E', 'E', 'B'],
        vec!['A', 'R', 'S', 'E'],
        vec!['G', 'A', 'S', 'H'],
        vec!['S', 'K', 'A', 'G'],
    ]
}

/// `s` with its dashes taken out.
pub open spec fn undashed(s: Seq<char>) -> Seq<char>
    decreases s.len(),
{
    if s.len() == 0 {
        s
    } else if s.last() == '-' {
        undashed(s.drop_last())
    } else {
        undashed(s.drop_last()).push(s.last())
    }
}

/// Whether `word` occurs in `s` as a run of consecutive characters.
pub open spec fn contains_word(s: Seq<char>, word: Seq<char>) -> bool {
    exists|i: int| 0 <= i && i + word.len() <= s.len() && #[trigger] s.subrange(i, i + word.len()) == word
}

/// Whether a code is safe to show somebody: no denied word occurs in its
/// symbols once the dashes are taken out, so a word across a dash counts too.
pub open spec fn is_wholesome(code: Seq<char>) -> bool {
    forall|j: int| 0 <= j < deny_words().len() ==> !contains_word(undashed(code), #[trigger] deny_words()[j])
}

fn strip_dashes(code: &Vec<char>) -> (out: Vec<char>)
    ensures
        out@ == undashed(code@),
{
    let mut out: Vec<char> = Vec::new();
    let mut i: usize = 0;
    while i < code.len()
        invariant
            i <= code@.len(),
            out@ == undashed(code@.take(i as int)),
        decreases code@.len() - i,
    {
        let c = code[i];
        if c != '-' {
            out.push(c);
        }
        assert(code@.take(i + 1).drop_last() =~= code@.take(i as int));
        i = i + 1;
    }
    assert(code@.take(code@.len() as int) =~= code@);
    out
}

fn run_matches(s: &Vec<char>, at: usize, word: &Vec<char>) -> (m: bool)
    requires
        at + word@.len() <= s@.len(),
    ensures
        m == (s@.subrange(at as int, at + word@.len()) == word@),
{
    let n: usize = s.len();
    let mut k: usize = 0;
    while k < word.len()
        invariant
            n == s@.len(),
            k <= word@.len(),
            at + word@.len() <= s@.len(),
            forall|t: int| 0 <= t < k ==> s@[at + t] == word@[t],
        decreases word@.len() - k,
    {
        assert(at + k < s@.len());
        if s[at + k] != word[k] {
            assert(s@.subrange(at as int, at + word@.len())[k as int] != word@[k as int]);
            return false;
        }
        k = k + 1;
    }
    assert(s@.subrange(at as int, at + word@.len()) =~= word@);
    true
}

fn contains_run(s: &Vec<char>, word: &Vec<char>) -> (found: bool)
    ensures
        found == contains_word(s@, word@),
{
    if word.len() > s.len() {
        return false;
    }
    let last: usize = s.len() - word.len();
    let mut at: usize = 0;
    loop
        invariant
            last + word@.len() == s@.len(),
            at <= last,
            forall|i: int| 0 <= i < at ==> #[trigger] s@.subrange(i, i + word@.len()) != word@,
        decreases last - at,
    {
        if run_matches(s, at, word) {
            return true;
        }
        if at == last {
            return false;
        }
        at = at + 1;
    }
}

/// Whether a code is safe to show somebody.
pub fn wholesome(code: &str) -> (fine: bool)
    ensures
        fine == is_wholesome(code@),
{
    let chars = chars_of(code);
    let symbols = strip_dashes(&chars);
    let words = denied_words();
    let mut j: usize = 0;
    while j < words.len()
        invariant
            j <= words@.len(),
            words@.len() == deny_words().len(),
            symbols@ == undashed(code@),
            forall|t: int| 0 <= t < words@.len() ==> #[trigger] words@[t]@ == deny_words()[t],
            forall|t: int| 0 <= t < j ==> !contains_word(undashed(code@), #[trigger] deny_words()[t]),
        decreases words@.len() - j,
    {
        if contains_run(&symbols, &words[j]) {
            assert(words@[j as int]@ == deny_words()[j as int]);
            return false;
        }
        j = j + 1;
    }
    true
}

/// `c` with an ASCII lower-case letter made upper case.
pub open spec fn ascii_upper(c: char) -> char {
    if 'a' <= c <= 'z' {
        ((c as int) - 32) as char
    } else {
        c
    }
}

/// What a typed character is heard as, in any case: `None` when it cannot be
/// part of a code, `Some(None)` for a separator, which is skipped, and
/// `Some(Some(d))` for the symbol `d`. The four letters the alphabet leaves
/// out are read as what the speaker meant: `I` and `L` as `1`, `O` as `0` and
/// `U` as `V`.
pub open spec fn heard_as(c: char) -> Option<Option<char>> {
    let u = ascii_upper(c);
    if u == '-' || u == '_' || u == ' ' || u == '\t' {
        Some(None)
    } else if u == 'I' || u == 'L' {
        Some(Some('1'))
    } else if u == 'O' {
        Some(Some('0'))
    } else if u == 'U' {
        Some(Some('V'))
    } else if is_code_symbol(u) {
        Some(Some(u))
    } else {
        None
    }
}

/// The symbols `s` is heard as, or `None` if any character of it cannot be
/// part of a code.
pub open spec fn transcribed(s: Seq<char>) -> Option<Seq<char>>
    decreases s.len(),
{
    if s.len() == 0 {
        Some(Seq::empty())
    } else {
        match transcribed(s.drop_last()) {
            None => None,
            Some(t) => match heard_as(s.last()) {
                None => None,
                Some(None) => Some(t),
                Some(Some(d)) => Some(t.push(d)),
            },
        }
    }
}

/// The code somebody typed as `s` stands for: exactly twelve symbols once
/// separators are skipped and every character is heard, grouped; otherwise
/// `None`.
pub open spec fn normalised(s: Seq<char>) -> Option<Seq<char>> {
    match transcribed(s) {
        Some(t) => if t.len() == 12 {
            Some(grouping(t))
        } else {
            None
        },
        None => None,
    }
}

fn ascii_upper_of(c: char) -> (u: char)
    ensures
        u == ascii_upper(c),
{
    if 'a' <= c && c <= 'z' {
        let b: u8 = (c as u32 - 32) as u8;
        b as char
    } else {
        c
    }
}

fn is_symbol_char(c: char) -> (b: bool)
    ensures
        b == is_code_symbol(c),
{
    ('0' <= c && c <= '9') || ('A' <= c && c <= 'Z' && c != 'I' && c != 'L' && c != 'O' && c != 'U')
}

/// A transcription that has gone wrong stays wrong, and one that has grown
/// never shrinks.
proof fn lemma_transcribed_grows(s: Seq<char>, i: int, j: int)
    requires
        0 <= i <= j <= s.len(),
        transcribed(s.take(j)) is Some,
    ensures
        transcribed(s.take(i)) is Some,
        transcribed(s.take(i))->0.len() <= transcribed(s.take(j))->0.len(),
    decreases j - i,
{
    if i < j {
        assert(s.take(j).drop_last() =~= s.take(j - 1));
        lemma_transcribed_grows(s, i, j - 1);
    }
}

/// Read a code somebody typed or pasted, or `None` if it cannot be one.
///
/// Forgives any case, separators anywhere, and the four letters the alphabet
/// leaves out. Stops reading as soon as it holds more than twelve symbols.
pub fn normalise(typed: &str) -> (code: Option<String>)
    ensures
        match code {
            Some(c) => normalised(typed@) == Some(c@),
            None => normalised(typed@) is None,
        },
{
    let chars = chars_of(typed);
    let mut out: Vec<char> = Vec::new();
    let mut i: usize = 0;
    while i < chars.len()
        invariant
            chars@ == typed@,
            i <= chars@.len(),
            out@.len() <= 12,
            transcribed(chars@.take(i as int)) == Some(out@),
        decreases chars@.len() - i,
    {
        let c = ascii_upper_of(chars[i]);
        assert(chars@.take(i + 1).drop_last() =~= chars@.take(i as int));
        assert(chars@.take(i + 1).last() == chars@[i as int]);
        if c == '-' || c == '_' || c == ' ' || c == '\t' {
            i = i + 1;
            continue;
        } else if c == 'I' || c == 'L' {
            out.push('1');
        } else if c == 'O' {
            out.push('0');
        } else if c == 'U' {
            out.push('V');
        } else if is_symbol_char(c) {
            out.push(c);
        } else {
            proof {
                if transcribed(chars@) is Some {
                    assert(chars@.take(chars@.len() as int) =~= chars@);
                    lemma_transcribed_grows(chars@, i + 1, chars@.len() as int);
                }
            }
            return None;
        }
        i = i + 1;
        if out.len() > 12 {
            proof {
                if transcribed(chars@) is Some {
                    assert(chars@.take(chars@.len() as int) =~= chars@);
                    lemma_transcribed_grows(chars@, i as int, chars@.len() as int);
                }
            }
            return None;
        }
    }
    assert(chars@.take(chars@.len() as int) =~= chars@);
    if out.len() == 12 {
        let grouped_out = group_chars(&out);
        Some(string_of(&grouped_out))
    } else {
        None
    }
}

/// A value from the operating system's entropy, or `None` if it refuses.
///
/// Trusted: calls `getrandom::u64` and drops its error. Nothing is stated of
/// the value, which is random.
#[verifier::external_body]
fn os_random_u64() -> (bits: Option<u64>) {
    getrandom::u64().ok()
}

/// The room code for `bits`, unless it spells something it must not.
pub fn code_from(bits: u64) -> (code: Option<String>)
    ensures
        code is Some <==> is_wholesome(code_of(bits)),
        code matches Some(c) ==> c@ == code_of(bits),
{
    let code = format_code(bits);
    if wholesome(code.as_str()) {
        Some(code)
    } else {
        None
    }
}

/// How many draws a fresh room code may take.
pub const MAX_DRAWS: usize = 8;

/// The code the first usable draw among `draws` gives: a draw the operating
/// system refused, or whose code spells a denied word, is passed over.
pub open spec fn first_code(draws: Seq<Option<u64>>) -> Option<Seq<char>>
    decreases draws.len(),
{
    if draws.len() == 0 {
        None
    } else {
        match draws[0] {
            Some(bits) => if is_wholesome(code_of(bits)) {
                Some(code_of(bits))
            } else {
                first_code(draws.skip(1))
            },
            None => first_code(draws.skip(1)),
        }
    }
}

/// The code a run of draws gives: the first usable one among the first
/// `MAX_DRAWS`, or `None` when none of them is.
pub fn code_from_draws(draws: &Vec<Option<u64>>) -> (code: Option<String>)
    ensures
        match code {
            Some(c) => first_code(draws@.take(if draws@.len() < MAX_DRAWS { draws@.len() as int } else { MAX_DRAWS as int }))
                == Some(c@),
            None => first_code(draws@.take(if draws@.len() < MAX_DRAWS { draws@.len() as int } else { MAX_DRAWS as int })) is None,
        },
{
    let ghost n: int = if draws@.len() < MAX_DRAWS { draws@.len() as int } else { MAX_DRAWS as int };
    let ghost window = draws@.take(n);
    let mut k: usize = 0;
    assert(window.skip(0) =~= window);
    while k < draws.len() && k < MAX_DRAWS
        invariant
            n == (if draws@.len() < MAX_DRAWS { draws@.len() as int } else { MAX_DRAWS as int }),
            window == draws@.take(n),
            k <= n,
            first_code(window) == first_code(window.skip(k as int)),
        decreases n - k,
    {
        let ghost rest = window.skip(k as int);
        assert(rest[0] == draws@[k as int]);
        assert(rest.skip(1) =~= window.skip(k + 1));
        if let Some(bits) = draws[k] {
            if let Some(code) = code_from(bits) {
                return Some(code);
            }
        }
        k = k + 1;
    }
    assert(window.skip(k as int).len() == 0);
    None
}

/// A fresh room code from the operating system's entropy.
///
/// At most `MAX_DRAWS` draws, stopping at the first that gives a code; which
/// code the draws give is `code_from_draws`.
pub fn generate_code() -> (code: Option<String>)
    ensures
        code matches Some(c) ==> is_wholesome(c@) && exists|bits: u64| c@ == code_of(bits),
{
    let mut draws: Vec<Option<u64>> = Vec::new();
    while draws.len() < MAX_DRAWS
        invariant
            draws@.len() <= MAX_DRAWS,
        decreases MAX_DRAWS - draws@.len(),
    {
        let draw = os_random_u64();
        draws.push(draw);
        if let Some(bits) = draw {
            if code_from(bits).is_some() {
                break;
            }
        }
    }
    let code = code_from_draws(&draws);
    proof {
        let n: int = if draws@.len() < MAX_DRAWS { draws@.len() as int } else { MAX_DRAWS as int };
        lemma_first_code_is_a_code(draws@.take(n));
    }
    code
}

proof fn lemma_first_code_is_a_code(draws: Seq<Option<u64>>)
    ensures
        first_code(draws) matches Some(c) ==> is_wholesome(c) && exists|bits: u64| c == code_of(bits),
    decreases draws.len(),
{
    if draws.len() > 0 {
        lemma_first_code_is_a_code(draws.skip(1));
    }
}

proof fn lemma_symbol(v: int)
    requires
        0 <= v < 32,
    ensures
        is_code_symbol(symbol(v)),
        symbol(v) as int == symbol_point(v),
        48 <= symbol_point(v) <= 90,
{
}

proof fn lemma_symbol_injective(v: int, w: int)
    requires
        0 <= v < 32,
        0 <= w < 32,
        symbol(v) == symbol(w),
    ensures
        v == w,
{
    lemma_symbol(v);
    lemma_symbol(w);
}

/// The symbols are exactly the ten digits and the letters without `I`, `L`,
/// `O` and `U`, in that order.
pub proof fn law_the_alphabet_is_crockford_base32(c: char)
    ensures
        is_code_symbol(c) <==> exists|v: int| 0 <= v < 32 && #[trigger] symbol(v) == c,
        forall|v: int, w: int| 0 <= v < w < 32 ==> (symbol(v) as int) < (symbol(w) as int),
{
    assert forall|v: int, w: int| 0 <= v < w < 32 implies (symbol(v) as int) < (symbol(w) as int) by {
        lemma_symbol(v);
        lemma_symbol(w);
    }
    if is_code_symbol(c) {
        let p = c as int;
        let v: int = if p <= 57 {
            p - 48
        } else if p <= 72 {
            p - 55
        } else if p <= 75 {
            p - 56
        } else if p <= 78 {
            p - 57
        } else if p <= 84 {
            p - 58
        } else {
            p - 59
        };
        lemma_symbol(v);
        assert(symbol(v) == c);
    }
    if exists|v: int| 0 <= v < 32 && #[trigger] symbol(v) == c {
        let v = choose|v: int| 0 <= v < 32 && #[trigger] symbol(v) == c;
        lemma_symbol(v);
    }
}

proof fn lemma_digit_small(bits: u64, i: nat)
    ensures
        digit(bits, i) < 32,
{
    let s = (5 * i) as u64;
    assert(((bits >> s) & 31u64) < 32u64) by (bit_vector);
}

proof fn lemma_encoded_symbols(bits: u64, n: nat)
    ensures
        forall|k: int| 0 <= k < n ==> is_code_symbol(#[trigger] encoded(bits, n)[k]),
{
    assert forall|k: int| 0 <= k < n implies is_code_symbol(#[trigger] encoded(bits, n)[k]) by {
        lemma_digit_small(bits, (n - 1 - k) as nat);
        lemma_symbol(digit(bits, (n - 1 - k) as nat) as int);
    }
}

/// Whether every character of `s` is a dash or a symbol.
pub open spec fn dashes_and_symbols(s: Seq<char>) -> bool {
    forall|k: int| 0 <= k < s.len() ==> s[k] == '-' || is_code_symbol(#[trigger] s[k])
}

/// Whether every character of `s` is a symbol.
pub open spec fn all_symbols(s: Seq<char>) -> bool {
    forall|k: int| 0 <= k < s.len() ==> is_code_symbol(#[trigger] s[k])
}

proof fn lemma_transcribed_clean(u: Seq<char>)
    requires
        dashes_and_symbols(u),
    ensures
        transcribed(u) == Some(undashed(u)),
    decreases u.len(),
{
    if u.len() > 0 {
        assert(dashes_and_symbols(u.drop_last())) by {
            assert forall|k: int| 0 <= k < u.drop_last().len() implies u.drop_last()[k] == '-'
                || is_code_symbol(#[trigger] u.drop_last()[k]) by {
                assert(u.drop_last()[k] == u[k]);
            }
        }
        lemma_transcribed_clean(u.drop_last());
        assert(u.last() == u[u.len() - 1]);
    }
}

proof fn lemma_undashed_concat(a: Seq<char>, b: Seq<char>)
    ensures
        undashed(a + b) == undashed(a) + undashed(b),
    decreases b.len(),
{
    if b.len() == 0 {
        assert(a + b =~= a);
        assert(undashed(a) + undashed(b) =~= undashed(a));
    } else {
        assert((a + b).drop_last() =~= a + b.drop_last());
        assert((a + b).last() == b.last());
        lemma_undashed_concat(a, b.drop_last());
        if b.last() != '-' {
            assert(undashed(a) + undashed(b.drop_last()).push(b.last()) =~= (undashed(a)
                + undashed(b.drop_last())).push(b.last()));
        }
    }
}

proof fn lemma_undashed_symbols(t: Seq<char>)
    requires
        all_symbols(t),
    ensures
        undashed(t) == t,
    decreases t.len(),
{
    if t.len() > 0 {
        assert(all_symbols(t.drop_last())) by {
            assert forall|k: int| 0 <= k < t.drop_last().len() implies is_code_symbol(
                #[trigger] t.drop_last()[k],
            ) by {
                assert(t.drop_last()[k] == t[k]);
            }
        }
        lemma_undashed_symbols(t.drop_last());
        assert(is_code_symbol(t[t.len() - 1]));
        assert(t.drop_last().push(t.last()) =~= t);
    }
}

proof fn lemma_transcribed_symbols(s: Seq<char>)
    requires
        transcribed(s) is Some,
    ensures
        all_symbols(transcribed(s)->0),
    decreases s.len(),
{
    if s.len() > 0 {
        lemma_transcribed_symbols(s.drop_last());
    }
}

/// Twelve symbols, grouped, read back as themselves.
proof fn lemma_grouped_symbols_read_back(t: Seq<char>)
    requires
        t.len() == 12,
        all_symbols(t),
    ensures
        normalised(grouping(t)) == Some(grouping(t)),
{
    let g = grouping(t);
    let (a, b, c) = (t.subrange(0, 4), t.subrange(4, 8), t.subrange(8, 12));
    assert(g =~= a + seq!['-'] + b + seq!['-'] + c);
    assert(dashes_and_symbols(g)) by {
        assert forall|k: int| 0 <= k < g.len() implies g[k] == '-' || is_code_symbol(#[trigger] g[k]) by {
            if k < 4 {
                assert(g[k] == t[k]);
            } else if 4 < k < 9 {
                assert(g[k] == t[k - 1]);
            } else if 9 < k {
                assert(g[k] == t[k - 2]);
            }
        }
    }
    lemma_transcribed_clean(g);
    lemma_undashed_concat(a + seq!['-'] + b + seq!['-'], c);
    lemma_undashed_concat(a + seq!['-'] + b, seq!['-']);
    lemma_undashed_concat(a + seq!['-'], b);
    lemma_undashed_concat(a, seq!['-']);
    assert(undashed(seq!['-']) =~= Seq::<char>::empty()) by {
        let d: Seq<char> = seq!['-'];
        assert(d.len() == 1);
        assert(d.last() == '-');
        assert(d.drop_last() =~= Seq::<char>::empty());
        assert(undashed(d) == undashed(d.drop_last()));
    }
    assert(all_symbols(a) && all_symbols(b) && all_symbols(c)) by {
        assert forall|k: int| 0 <= k < 4 implies is_code_symbol(#[trigger] a[k]) && is_code_symbol(
            #[trigger] b[k],
        ) && is_code_symbol(#[trigger] c[k]) by {
            assert(a[k] == t[k]);
            assert(b[k] == t[k + 4]);
            assert(c[k] == t[k + 8]);
        }
    }
    lemma_undashed_symbols(a);
    lemma_undashed_symbols(b);
    lemma_undashed_symbols(c);
    assert(undashed(g) =~= t);
}

/// A room code is twelve symbols in three groups of four.
pub proof fn law_a_code_is_three_groups_of_four(bits: u64)
    ensures
        code_of(bits).len() == 14,
        code_of(bits)[4] == '-',
        code_of(bits)[9] == '-',
        forall|k: int| 0 <= k < 14 && k != 4 && k != 9 ==> is_code_symbol(#[trigger] code_of(bits)[k]),
{
    lemma_encoded_symbols(bits, 12);
    let e = encoded(bits, 12);
    assert forall|k: int| 0 <= k < 14 && k != 4 && k != 9 implies is_code_symbol(#[trigger] code_of(bits)[k]) by {
        if k < 4 {
            assert(code_of(bits)[k] == e[k]);
        } else if k < 9 {
            assert(code_of(bits)[k] == e[k - 1]);
        } else {
            assert(code_of(bits)[k] == e[k - 2]);
        }
    }
}

/// Every code reads back as itself.
pub proof fn law_a_code_reads_back_as_itself(bits: u64)
    ensures
        normalised(code_of(bits)) == Some(code_of(bits)),
{
    lemma_encoded_symbols(bits, 12);
    lemma_grouped_symbols_read_back(encoded(bits, 12));
}

/// Reading a code that has already been read changes nothing.
pub proof fn law_reading_a_code_twice_is_reading_it_once(typed: Seq<char>)
    requires
        normalised(typed) is Some,
    ensures
        normalised(normalised(typed)->0) == normalised(typed),
{
    lemma_transcribed_symbols(typed);
    lemma_grouped_symbols_read_back(transcribed(typed)->0);
}

/// The sixty bits a code carries.
pub open spec fn low_sixty(bits: u64) -> u64 {
    bits & 0x0fff_ffff_ffff_ffffu64
}

proof fn lemma_digit_of_low_sixty(bits: u64, i: nat)
    requires
        i < 12,
    ensures
        digit(bits, i) == digit(low_sixty(bits), i),
{
    let s = (5 * i) as u64;
    assert(((bits >> s) & 31u64) == (((bits & 0x0fff_ffff_ffff_ffffu64) >> s) & 31u64)) by (bit_vector)
        requires
            s <= 55,
    ;
}

proof fn lemma_digits_determine_low_sixty(a: u64, b: u64)
    requires
        forall|i: nat| i < 12 ==> digit(a, i) == digit(b, i),
    ensures
        low_sixty(a) == low_sixty(b),
{
    assert(digit(a, 0) == digit(b, 0));
    assert(digit(a, 1) == digit(b, 1));
    assert(digit(a, 2) == digit(b, 2));
    assert(digit(a, 3) == digit(b, 3));
    assert(digit(a, 4) == digit(b, 4));
    assert(digit(a, 5) == digit(b, 5));
    assert(digit(a, 6) == digit(b, 6));
    assert(digit(a, 7) == digit(b, 7));
    assert(digit(a, 8) == digit(b, 8));
    assert(digit(a, 9) == digit(b, 9));
    assert(digit(a, 10) == digit(b, 10));
    assert(digit(a, 11) == digit(b, 11));
    assert((a & 0x0fff_ffff_ffff_ffffu64) == (b & 0x0fff_ffff_ffff_ffffu64)) by (bit_vector)
        requires
            (a >> 0u64) & 31u64 == (b >> 0u64) & 31u64,
            (a >> 5u64) & 31u64 == (b >> 5u64) & 31u64,
            (a >> 10u64) & 31u64 == (b >> 10u64) & 31u64,
            (a >> 15u64) & 31u64 == (b >> 15u64) & 31u64,
            (a >> 20u64) & 31u64 == (b >> 20u64) & 31u64,
            (a >> 25u64) & 31u64 == (b >> 25u64) & 31u64,
            (a >> 30u64) & 31u64 == (b >> 30u64) & 31u64,
            (a >> 35u64) & 31u64 == (b >> 35u64) & 31u64,
            (a >> 40u64) & 31u64 == (b >> 40u64) & 31u64,
            (a >> 45u64) & 31u64 == (b >> 45u64) & 31u64,
            (a >> 50u64) & 31u64 == (b >> 50u64) & 31u64,
            (a >> 55u64) & 31u64 == (b >> 55u64) & 31u64,
    ;
}

/// A code carries exactly the low sixty bits of the value it was made from:
/// two values give the same code if and only if those bits agree.
pub proof fn law_a_code_carries_sixty_bits(a: u64, b: u64)
    ensures
        code_of(a) == code_of(b) <==> low_sixty(a) == low_sixty(b),
{
    if low_sixty(a) == low_sixty(b) {
        assert forall|i: nat| i < 12 implies digit(a, i) == digit(b, i) by {
            lemma_digit_of_low_sixty(a, i);
            lemma_digit_of_low_sixty(b, i);
        }
        assert(encoded(a, 12) =~= encoded(b, 12));
    }
    if code_of(a) == code_of(b) {
        let (ea, eb) = (encoded(a, 12), encoded(b, 12));
        assert forall|k: int| 0 <= k < 12 implies ea[k] == eb[k] by {
            if k < 4 {
                assert(code_of(a)[k] == ea[k] && code_of(b)[k] == eb[k]);
            } else if k < 8 {
                assert(code_of(a)[k + 1] == ea[k] && code_of(b)[k + 1] == eb[k]);
            } else {
                assert(code_of(a)[k + 2] == ea[k] && code_of(b)[k + 2] == eb[k]);
            }
        }
        assert forall|i: nat| i < 12 implies digit(a, i) == digit(b, i) by {
            let k = 11 - i;
            assert(ea[k] == eb[k]);
            lemma_digit_small(a, i);
            lemma_digit_small(b, i);
            lemma_symbol_injective(digit(a, i) as int, digit(b, i) as int);
        }
        lemma_digits_determine_low_sixty(a, b);
    }
}

/// Every denied word is spelled in the code alphabet, so each of them can
/// actually occur in a code.
pub proof fn law_every_denied_word_can_occur()
    ensures
        forall|j: int, k: int|
            0 <= j < deny_words().len() && 0 <= k < deny_words()[j].len() ==> is_code_symbol(
                #[trigger] deny_words()[j][k],
            ),
{
}

} // verus!
