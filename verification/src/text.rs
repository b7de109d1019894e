//! Words, numbers and comparisons in command text.
use vstd::prelude::*;

verus! {

/// `String::push` appends one character.
pub assume_specification[ String::push ](s: &mut String, c: char)
    ensures
        final(s)@ == old(s)@.push(c),
;

/// White space, as Unicode has it: the blank, the control characters from tab to carriage return,
/// the next-line control, and the spaces and separators beyond ASCII.
pub open spec fn white_space(c: char) -> bool {
    let n = c as u32;
    ||| n == 0x20
    ||| 0x09 <= n <= 0x0d
    ||| n == 0x85
    ||| n == 0xa0
    ||| n == 0x1680
    ||| 0x2000 <= n <= 0x200a
    ||| n == 0x2028
    ||| n == 0x2029
    ||| n == 0x202f
    ||| n == 0x205f
    ||| n == 0x3000
}

/// Whether a character separates words.
pub fn is_space(c: char) -> (r: bool)
    ensures
        r == white_space(c),
{
    let n: u32 = c as u32;
    (9 <= n && n <= 13) || n == 32 || n == 0x85 || n == 0xa0 || n == 0x1680 || (0x2000 <= n && n <= 0x200a) || n == 0x2028 || n
        == 0x2029 || n == 0x202f || n == 0x205f || n == 0x3000
}

/// The characters of a text.
pub fn chars_of(s: &str) -> (r: Vec<char>)
    ensures
        r@ == s@,
{
    let mut v: Vec<char> = Vec::new();
    for c in it: s.chars()
        invariant
            it.seq() == s@,
            v@ == s@.take(it.index() as int),
    {
        v.push(c);
        assert(s@.take(it.index() as int + 1) =~= s@.take(it.index() as int).push(c));
    }
    assert(s@.take(s@.len() as int) =~= s@);
    v
}

/// The text of characters.
pub fn text_of(v: &Vec<char>) -> (r: String)
    ensures
        r@ == v@,
{
    let mut s = String::new();
    let n: usize = v.len();
    let mut i: usize = 0;
    while i < n
        invariant
            i <= n,
            n == v@.len(),
            s@ == v@.take(i as int),
        decreases n - i,
    {
        s.push(v[i]);
        assert(v@.take(i as int + 1) =~= v@.take(i as int).push(v@[i as int]));
        i = i + 1;
    }
    assert(v@.take(n as int) =~= v@);
    s
}

/// Whether two runs of characters are the same.
pub fn same_chars(a: &Vec<char>, b: &Vec<char>) -> (r: bool)
    ensures
        r == (a@ == b@),
{
    let n: usize = a.len();
    if n != b.len() {
        return false;
    }
    let mut i: usize = 0;
    while i < n
        invariant
            i <= n,
            n == a@.len(),
            n == b@.len(),
            forall|k: int| 0 <= k < i ==> a@[k] == b@[k],
        decreases n - i,
    {
        if a[i] != b[i] {
            return false;
        }
        i = i + 1;
    }
    assert(a@ =~= b@);
    true
}

/// Whether a word is the given text.
pub fn is(word: &Vec<char>, text: &str) -> (r: bool)
    ensures
        r == (word@ == text@),
{
    let t = chars_of(text);
    same_chars(word, &t)
}

/// A character with ASCII capitals made small.
pub open spec fn lowered(c: char) -> char {
    if 'A' <= c && c <= 'Z' {
        (c as u8 + 32) as char
    } else {
        c
    }
}

pub open spec fn lowered_text(s: Seq<char>) -> Seq<char> {
    s.map_values(|c: char| lowered(c))
}

fn lower(c: char) -> (r: char)
    ensures
        r == lowered(c),
{
    if 'A' <= c && c <= 'Z' {
        (c as u8 + 32) as char
    } else {
        c
    }
}

/// Whether a word is the given text but for ASCII case.
pub fn is_ignoring_case(word: &Vec<char>, text: &str) -> (r: bool)
    ensures
        r == (lowered_text(word@) == lowered_text(text@)),
{
    let t = chars_of(text);
    let n: usize = word.len();
    if n != t.len() {
        assert(lowered_text(word@).len() != lowered_text(text@).len());
        return false;
    }
    let mut i: usize = 0;
    while i < n
        invariant
            i <= n,
            n == word@.len(),
            n == t@.len(),
            t@ == text@,
            forall|k: int| 0 <= k < i ==> lowered(#[trigger] word@[k]) == lowered(t@[k]),
        decreases n - i,
    {
        if lower(word[i]) != lower(t[i]) {
            assert(lowered_text(word@)[i as int] != lowered_text(text@)[i as int]);
            return false;
        }
        i = i + 1;
    }
    assert(lowered_text(word@) =~= lowered_text(text@));
    true
}

/// What remains to be split from character `i` on, with `cur` the word being read.
pub open spec fn words_from(s: Seq<char>, i: int, cur: Seq<char>) -> Seq<Seq<char>>
    decreases s.len() - i,
{
    let done = if cur.len() > 0 {
        seq![cur]
    } else {
        Seq::empty()
    };
    if i >= s.len() {
        done
    } else if white_space(s[i]) {
        done + words_from(s, i + 1, Seq::empty())
    } else {
        words_from(s, i + 1, cur.push(s[i]))
    }
}

/// The words of a line: what white space separates.
pub open spec fn words_of(s: Seq<char>) -> Seq<Seq<char>> {
    words_from(s, 0, Seq::empty())
}

pub open spec fn views(v: Seq<Vec<char>>) -> Seq<Seq<char>> {
    v.map_values(|w: Vec<char>| w@)
}

/// Splits a line into its words.
pub fn words(line: &str) -> (r: Vec<Vec<char>>)
    ensures
        views(r@) == words_of(line@),
{
    let s = chars_of(line);
    let n: usize = s.len();
    let mut out: Vec<Vec<char>> = Vec::new();
    let mut cur: Vec<char> = Vec::new();
    let mut i: usize = 0;
    assert(views(out@) + words_from(s@, 0, cur@) =~= words_of(s@));
    while i < n
        invariant
            i <= n,
            n == s@.len(),
            views(out@) + words_from(s@, i as int, cur@) == words_of(s@),
        decreases n - i,
    {
        let c: char = s[i];
        if is_space(c) {
            if cur.len() > 0 {
                let ghost before = views(out@);
                let ghost word = cur@;
                out.push(cur);
                cur = Vec::new();
                assert(views(out@) =~= before + seq![word]);
                assert(views(out@) + words_from(s@, i + 1, Seq::empty()) =~= before + (seq![word] + words_from(
                    s@,
                    i + 1,
                    Seq::empty(),
                )));
            } else {
                assert(Seq::<Seq<char>>::empty() + words_from(s@, i + 1, Seq::empty()) =~= words_from(
                    s@,
                    i + 1,
                    Seq::empty(),
                ));
            }
            assert(cur@ =~= Seq::empty());
        } else {
            cur.push(c);
        }
        i = i + 1;
    }
    if cur.len() > 0 {
        let ghost before = views(out@);
        let ghost word = cur@;
        out.push(cur);
        assert(views(out@) =~= before + seq![word]);
    } else {
        assert(views(out@) + Seq::<Seq<char>>::empty() =~= views(out@));
    }
    out
}

/// What remains to be split from character `i` on, with `cur` the line being read.
pub open spec fn lines_from(s: Seq<char>, i: int, cur: Seq<char>) -> Seq<Seq<char>>
    decreases s.len() - i,
{
    if i >= s.len() {
        seq![cur]
    } else if s[i] == '\n' {
        seq![cur] + lines_from(s, i + 1, Seq::empty())
    } else {
        lines_from(s, i + 1, cur.push(s[i]))
    }
}

/// The lines of a text: what line feeds separate. The last may be empty.
pub open spec fn lines_of(s: Seq<char>) -> Seq<Seq<char>> {
    lines_from(s, 0, Seq::empty())
}

/// Splits a text into its lines.
pub fn lines(text: &str) -> (r: Vec<Vec<char>>)
    ensures
        views(r@) == lines_of(text@),
{
    let s = chars_of(text);
    let n: usize = s.len();
    let mut out: Vec<Vec<char>> = Vec::new();
    let mut cur: Vec<char> = Vec::new();
    let mut i: usize = 0;
    assert(views(out@) + lines_from(s@, 0, cur@) =~= lines_of(s@));
    while i < n
        invariant
            i <= n,
            n == s@.len(),
            views(out@) + lines_from(s@, i as int, cur@) == lines_of(s@),
        decreases n - i,
    {
        let c: char = s[i];
        if c == '\n' {
            let ghost before = views(out@);
            let ghost line = cur@;
            out.push(cur);
            cur = Vec::new();
            assert(views(out@) =~= before + seq![line]);
            assert(cur@ =~= Seq::empty());
            assert(views(out@) + lines_from(s@, i + 1, Seq::empty()) =~= before + (seq![line] + lines_from(
                s@,
                i + 1,
                Seq::empty(),
            )));
        } else {
            cur.push(c);
        }
        i = i + 1;
    }
    let ghost before = views(out@);
    let ghost line = cur@;
    out.push(cur);
    assert(views(out@) =~= before + seq![line]);
    out
}

/// A text without the white space at its ends.
pub open spec fn trimmed(s: Seq<char>) -> Seq<char>
    decreases s.len(),
{
    if s.len() == 0 {
        s
    } else if white_space(s[0]) {
        trimmed(s.drop_first())
    } else if white_space(s.last()) {
        trimmed(s.drop_last())
    } else {
        s
    }
}

/// Takes the white space off both ends.
pub fn trim(s: &Vec<char>) -> (r: Vec<char>)
    ensures
        r@ == trimmed(s@),
{
    let mut low: usize = 0;
    let mut high: usize = s.len();
    assert(s@.subrange(0, high as int) =~= s@);
    while low < high && is_space(s[low])
        invariant
            low <= high == s@.len(),
            trimmed(s@.subrange(low as int, high as int)) == trimmed(s@),
        decreases high - low,
    {
        assert(s@.subrange(low as int, high as int).drop_first() =~= s@.subrange(low + 1, high as int));
        low = low + 1;
    }
    while low < high && is_space(s[high - 1])
        invariant
            low <= high <= s@.len(),
            low < high ==> !white_space(s@[low as int]),
            trimmed(s@.subrange(low as int, high as int)) == trimmed(s@),
        decreases high - low,
    {
        assert(s@.subrange(low as int, high as int).drop_last() =~= s@.subrange(low as int, high - 1));
        high = high - 1;
    }
    let mut out: Vec<char> = Vec::new();
    let mut i: usize = low;
    while i < high
        invariant
            low <= i <= high <= s@.len(),
            out@ == s@.subrange(low as int, i as int),
        decreases high - i,
    {
        out.push(s[i]);
        i = i + 1;
        assert(out@ =~= s@.subrange(low as int, i as int));
    }
    out
}

/// The digit a character stands for, or -1.
pub open spec fn digit_of(c: char) -> int {
    if '0' <= c && c <= '9' {
        c as int - '0' as int
    } else {
        -1
    }
}

/// Every character from `from` on is a digit.
pub open spec fn all_digits(s: Seq<char>, from: int) -> bool {
    forall|k: int| from <= k < s.len() ==> digit_of(#[trigger] s[k]) >= 0
}

/// The decimal number of the characters from `from` up to `n`.
pub open spec fn decimal(s: Seq<char>, from: int, n: int) -> int
    decreases n - from,
{
    if n <= from {
        0
    } else {
        10 * decimal(s, from, n - 1) + digit_of(s[n - 1])
    }
}

proof fn lemma_decimal_grows(s: Seq<char>, from: int, n: int, m: int)
    requires
        0 <= from <= n <= m <= s.len(),
        forall|k: int| from <= k < m ==> digit_of(#[trigger] s[k]) >= 0,
    ensures
        0 <= decimal(s, from, n) <= decimal(s, from, m),
    decreases m,
{
    if n < m {
        lemma_decimal_grows(s, from, n, m - 1);
    } else if from < n {
        lemma_decimal_grows(s, from, n - 1, n - 1);
    }
}

/// The number the digits from `from` on write, where there is one and it fits.
fn digits(s: &Vec<char>, from: usize) -> (r: Option<u128>)
    requires
        from <= s@.len(),
    ensures
        match r {
            Some(v) => from < s@.len() && all_digits(s@, from as int) && v == decimal(s@, from as int, s@.len() as int),
            None => from == s@.len() || !all_digits(s@, from as int) || decimal(s@, from as int, s@.len() as int)
                > u128::MAX,
        },
{
    let n: usize = s.len();
    if from == n {
        return None;
    }
    let mut v: u128 = 0;
    let mut i: usize = from;
    while i < n
        invariant
            from <= i <= n,
            n == s@.len(),
            forall|k: int| from <= k < i ==> digit_of(#[trigger] s@[k]) >= 0,
            v == decimal(s@, from as int, i as int),
        decreases n - i,
    {
        let c: char = s[i];
        if !('0' <= c && c <= '9') {
            assert(digit_of(s@[i as int]) < 0);
            return None;
        }
        let d: u128 = (c as u8 - 48) as u128;
        let grown: Option<u128> = v.checked_mul(10);
        proof {
            assert(decimal(s@, from as int, i + 1) == 10 * v + d);
        }
        match grown {
            Some(t) => match t.checked_add(d) {
                Some(u) => {
                    v = u;
                },
                None => {
                    proof {
                        if all_digits(s@, from as int) {
                            lemma_decimal_grows(s@, from as int, i + 1, n as int);
                        }
                    }
                    return None;
                },
            },
            None => {
                proof {
                    if all_digits(s@, from as int) {
                        lemma_decimal_grows(s@, from as int, i + 1, n as int);
                    }
                }
                return None;
            },
        }
        i = i + 1;
    }
    Some(v)
}

/// Where the digits of an unsigned number start: after a plus sign.
pub open spec fn after_plus(s: Seq<char>) -> int {
    if s.len() > 0 && s[0] == '+' {
        1
    } else {
        0
    }
}

/// The unsigned number a word writes, if it does and it is at most `max`.
pub open spec fn unsigned_value(s: Seq<char>, max: int) -> Option<int> {
    let o = after_plus(s);
    if o < s.len() && all_digits(s, o) && decimal(s, o, s.len() as int) <= max {
        Some(decimal(s, o, s.len() as int))
    } else {
        None
    }
}

pub fn parse_u128(s: &Vec<char>) -> (r: Option<u128>)
    ensures
        match r {
            Some(v) => unsigned_value(s@, u128::MAX as int) == Some(v as int),
            None => unsigned_value(s@, u128::MAX as int) is None,
        },
{
    let o: usize = if s.len() > 0 && s[0] == '+' {
        1
    } else {
        0
    };
    digits(s, o)
}

pub fn parse_usize(s: &Vec<char>) -> (r: Option<usize>)
    ensures
        match r {
            Some(v) => unsigned_value(s@, usize::MAX as int) == Some(v as int),
            None => unsigned_value(s@, usize::MAX as int) is None,
        },
{
    match parse_u128(s) {
        Some(v) => if v <= usize::MAX as u128 {
            Some(v as usize)
        } else {
            None
        },
        None => None,
    }
}

/// Where the digits of a signed number start: after a sign.
pub open spec fn after_sign(s: Seq<char>) -> int {
    if s.len() > 0 && (s[0] == '+' || s[0] == '-') {
        1
    } else {
        0
    }
}

/// The signed number a word writes, if it does and it lies within `min` and `max`.
pub open spec fn signed_value(s: Seq<char>, min: int, max: int) -> Option<int> {
    let o = after_sign(s);
    let d = decimal(s, o, s.len() as int);
    let v = if s.len() > 0 && s[0] == '-' {
        -d
    } else {
        d
    };
    if o < s.len() && all_digits(s, o) && min <= v <= max {
        Some(v)
    } else {
        None
    }
}

pub fn parse_i64(s: &Vec<char>) -> (r: Option<i64>)
    ensures
        match r {
            Some(v) => signed_value(s@, i64::MIN as int, i64::MAX as int) == Some(v as int),
            None => signed_value(s@, i64::MIN as int, i64::MAX as int) is None,
        },
{
    let negative: bool = s.len() > 0 && s[0] == '-';
    let o: usize = if s.len() > 0 && (s[0] == '+' || s[0] == '-') {
        1
    } else {
        0
    };
    match digits(s, o) {
        None => None,
        Some(v) => {
            if negative {
                if v <= 0x8000_0000_0000_0000 {
                    Some((0 - v as i128) as i64)
                } else {
                    None
                }
            } else if v <= 0x7fff_ffff_ffff_ffff {
                Some(v as i64)
            } else {
                None
            }
        },
    }
}

/// The digit of a number below ten.
pub open spec fn digit(d: nat) -> char {
    (d as u8 + '0' as u8) as char
}

/// A number in decimal.
pub open spec fn numeral(n: nat) -> Seq<char>
    decreases n,
{
    if n < 10 {
        seq![digit(n)]
    } else {
        numeral(n / 10).push(digit(n % 10))
    }
}

/// A number in decimal, with a minus sign where it is negative.
pub open spec fn signed_numeral(n: int) -> Seq<char> {
    if n < 0 {
        seq!['-'] + numeral((-n) as nat)
    } else {
        numeral(n as nat)
    }
}

/// Appends a number in decimal.
pub fn push_number(out: &mut String, n: u128)
    ensures
        final(out)@ == old(out)@ + numeral(n as nat),
    decreases n,
{
    if n >= 10 {
        push_number(out, n / 10);
    }
    let d: u8 = (n % 10) as u8;
    out.push((d + 48) as char);
    assert(out@ =~= old(out)@ + numeral(n as nat));
}

/// Appends a number that may be negative.
pub fn push_signed(out: &mut String, n: i64)
    ensures
        final(out)@ == old(out)@ + signed_numeral(n as int),
{
    if n < 0 {
        out.push('-');
        push_number(out, (-(n as i128)) as u128);
        assert(out@ =~= old(out)@ + signed_numeral(n as int));
    } else {
        push_number(out, n as u128);
    }
}

/// Appends a text.
pub fn append(out: &mut String, t: &str)
    ensures
        final(out)@ == old(out)@ + t@,
{
    let v = chars_of(t);
    let n: usize = v.len();
    let mut i: usize = 0;
    while i < n
        invariant
            i <= n,
            n == v@.len(),
            v@ == t@,
            out@ == old(out)@ + t@.take(i as int),
        decreases n - i,
    {
        out.push(v[i]);
        i = i + 1;
        assert(t@.take(i as int) =~= t@.take(i as int - 1).push(t@[i as int - 1]));
        assert(out@ =~= old(out)@ + t@.take(i as int));
    }
    assert(t@.take(n as int) =~= t@);
}

// ---------------- laws ----------------
/// Lowering changes capital letters alone, and a second time changes nothing.
pub proof fn law_lowering_is_done_once(c: char, s: Seq<char>)
    ensures
        'A' <= c <= 'Z' ==> lowered(c) as u32 == c as u32 + 32,
        !('A' <= c <= 'Z') ==> lowered(c) == c,
        lowered_text(lowered_text(s)) == lowered_text(s),
        lowered_text(s).len() == s.len(),
{
    assert forall|i: int| 0 <= i < s.len() implies lowered(lowered(s[i])) == lowered(s[i]) by {}
    assert(lowered_text(lowered_text(s)) =~= lowered_text(s));
}

/// No word is empty or holds white space, and words lose none of the other characters.
pub proof fn law_words_hold_no_white_space(s: Seq<char>, i: int, cur: Seq<char>)
    requires
        0 <= i <= s.len(),
        forall|k: int| 0 <= k < cur.len() ==> !white_space(#[trigger] cur[k]),
    ensures
        forall|w: int| 0 <= w < words_from(s, i, cur).len() ==> (#[trigger] words_from(s, i, cur)[w]).len() > 0,
        forall|w: int, k: int|
            0 <= w < words_from(s, i, cur).len() && 0 <= k < words_from(s, i, cur)[w].len() ==> !white_space(
                #[trigger] words_from(s, i, cur)[w][k],
            ),
        total_length(words_from(s, i, cur)) == cur.len() + dark(s, i),
    decreases s.len() - i,
{
    let done = if cur.len() > 0 {
        seq![cur]
    } else {
        Seq::empty()
    };
    assert(total_length(done) == cur.len()) by {
        reveal_with_fuel(total_length, 2);
        if cur.len() > 0 {
            assert(seq![cur].drop_last() =~= Seq::<Seq<char>>::empty());
            assert(seq![cur].last() == cur);
        }
    }
    if i < s.len() {
        if white_space(s[i]) {
            law_words_hold_no_white_space(s, i + 1, Seq::empty());
            let rest = words_from(s, i + 1, Seq::empty());
            lemma_total_length(done, rest);
            assert forall|w: int| 0 <= w < (done + rest).len() implies (#[trigger] (done + rest)[w]).len() > 0 by {
                if w >= done.len() {
                    assert((done + rest)[w] == rest[w - done.len()]);
                }
            }
            assert forall|w: int, k: int| 0 <= w < (done + rest).len() && 0 <= k < (done + rest)[w].len() implies !white_space(
                #[trigger] (done + rest)[w][k],
            ) by {
                if w >= done.len() {
                    assert((done + rest)[w] == rest[w - done.len()]);
                    assert(!white_space(rest[w - done.len()][k]));
                }
            }
        } else {
            law_words_hold_no_white_space(s, i + 1, cur.push(s[i]));
        }
    }
}

/// How many characters words have together.
pub open spec fn total_length(v: Seq<Seq<char>>) -> nat
    decreases v.len(),
{
    if v.len() == 0 {
        0
    } else {
        total_length(v.drop_last()) + v.last().len()
    }
}

/// How many characters from `i` on are not white space.
pub open spec fn dark(s: Seq<char>, i: int) -> nat
    decreases s.len() - i,
{
    if i >= s.len() {
        0
    } else {
        dark(s, i + 1) + if white_space(s[i]) {
            0nat
        } else {
            1nat
        }
    }
}

proof fn lemma_total_length(a: Seq<Seq<char>>, b: Seq<Seq<char>>)
    ensures
        total_length(a + b) == total_length(a) + total_length(b),
    decreases b.len(),
{
    if b.len() == 0 {
        assert(a + b =~= a);
    } else {
        lemma_total_length(a, b.drop_last());
        assert((a + b).drop_last() =~= a + b.drop_last());
        assert((a + b).last() == b.last());
    }
}

/// A trimmed text begins and ends without white space, and trimming it again changes nothing.
pub proof fn law_trimmed_text_has_dark_ends(s: Seq<char>)
    ensures
        trimmed(s).len() > 0 ==> !white_space(trimmed(s)[0]) && !white_space(trimmed(s).last()),
        trimmed(trimmed(s)) == trimmed(s),
        trimmed(s).len() <= s.len(),
        s.len() > 0 && !white_space(s[0]) && !white_space(s.last()) ==> trimmed(s) == s,
    decreases s.len(),
{
    if s.len() > 0 {
        if white_space(s[0]) {
            law_trimmed_text_has_dark_ends(s.drop_first());
        } else if white_space(s.last()) {
            law_trimmed_text_has_dark_ends(s.drop_last());
        }
    }
}

/// A number written in decimal reads back.
pub proof fn law_numerals_read_back(n: nat)
    ensures
        numeral(n).len() >= 1,
        all_digits(numeral(n), 0),
        decimal(numeral(n), 0, numeral(n).len() as int) == n,
        n >= 10 ==> numeral(n)[0] != '0',
        n > 0 ==> numeral(n)[0] != '0',
    decreases n,
{
    if n < 10 {
        let s = numeral(n);
        assert(s =~= seq![digit(n)]);
        assert(digit_of(digit(n)) == n);
        assert(decimal(s, 0, 1) == 10 * decimal(s, 0, 0) + digit_of(s[0]));
        assert(decimal(s, 0, 0) == 0);
    } else {
        law_numerals_read_back(n / 10);
        let t = numeral(n / 10);
        let s = numeral(n);
        assert(s == t.push(digit(n % 10)));
        lemma_decimal_prefix(t, s, t.len() as int);
        assert(digit_of(digit(n % 10)) == n % 10);
        assert forall|k: int| 0 <= k < s.len() implies digit_of(#[trigger] s[k]) >= 0 by {
            if k < t.len() {
                assert(s[k] == t[k]);
            }
        }
    }
}

proof fn lemma_decimal_prefix(a: Seq<char>, b: Seq<char>, n: int)
    requires
        n <= a.len(),
        n <= b.len(),
        forall|k: int| 0 <= k < n ==> a[k] == b[k],
    ensures
        decimal(a, 0, n) == decimal(b, 0, n),
    decreases n,
{
    if n > 0 {
        lemma_decimal_prefix(a, b, n - 1);
    }
}

/// A number within its range reads back as it was written, and with a plus sign as well; a negative
/// one only as a signed number.
pub proof fn law_written_numbers_are_read(n: nat, max: int)
    requires
        n <= max,
    ensures
        unsigned_value(numeral(n), max) == Some(n as int),
        signed_value(numeral(n), -max, max) == Some(n as int),
        unsigned_value(numeral(n), n - 1) is None,
        n > 0 ==> signed_value(signed_numeral(-(n as int)), -max, max) == Some(-(n as int)),
        n > 0 ==> unsigned_value(signed_numeral(-(n as int)), max) is None,
{
    law_numerals_read_back(n);
    let s = numeral(n);
    assert(digit_of(s[0]) >= 0);
    let t = seq!['-'] + s;
    assert(t[0] == '-');
    assert forall|k: int| 1 <= k < t.len() implies digit_of(#[trigger] t[k]) >= 0 by {
        assert(t[k] == s[k - 1]);
    }
    lemma_decimal_shift(s, t, s.len() as int);
    assert(digit_of(t[0]) == -1);
}

proof fn lemma_decimal_shift(s: Seq<char>, t: Seq<char>, n: int)
    requires
        0 <= n <= s.len(),
        t.len() == s.len() + 1,
        forall|k: int| 0 <= k < s.len() ==> s[k] == t[k + 1],
    ensures
        decimal(t, 1, n + 1) == decimal(s, 0, n),
    decreases n,
{
    if n > 0 {
        lemma_decimal_shift(s, t, n - 1);
        assert(t[n] == s[n - 1]);
    }
}

/// Blanks, tabs and line ends are white space; letters, digits and signs are not.
pub proof fn law_white_space_is_what_separates(c: char)
    ensures
        c == ' ' || c == '\t' || c == '\n' || c == '\r' ==> white_space(c),
        '!' <= c <= '~' ==> !white_space(c),
        white_space(c) ==> lowered(c) == c,
{
}

/// No line holds a line end, and there is one line more than line ends.
pub proof fn law_lines_end_at_line_ends(s: Seq<char>, i: int, cur: Seq<char>)
    requires
        0 <= i <= s.len(),
        forall|k: int| 0 <= k < cur.len() ==> #[trigger] cur[k] != '\n',
    ensures
        lines_from(s, i, cur).len() == 1 + line_ends(s, i),
        forall|w: int, k: int|
            0 <= w < lines_from(s, i, cur).len() && 0 <= k < lines_from(s, i, cur)[w].len() ==> #[trigger] lines_from(s, i, cur)[w][k]
                != '\n',
    decreases s.len() - i,
{
    if i < s.len() {
        if s[i] == '\n' {
            law_lines_end_at_line_ends(s, i + 1, Seq::empty());
            let rest = lines_from(s, i + 1, Seq::empty());
            let all = seq![cur] + rest;
            assert forall|w: int, k: int| 0 <= w < all.len() && 0 <= k < all[w].len() implies #[trigger] all[w][k] != '\n' by {
                if w > 0 {
                    assert(all[w] == rest[w - 1]);
                    assert(rest[w - 1][k] != '\n');
                }
            }
        } else {
            law_lines_end_at_line_ends(s, i + 1, cur.push(s[i]));
        }
    }
}

/// How many line ends there are from `i` on.
pub open spec fn line_ends(s: Seq<char>, i: int) -> nat
    decreases s.len() - i,
{
    if i >= s.len() {
        0
    } else {
        line_ends(s, i + 1) + if s[i] == '\n' {
            1nat
        } else {
            0nat
        }
    }
}

} // verus!
