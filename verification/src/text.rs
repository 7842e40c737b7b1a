//! Reading text: words, characters and numbers.

use vstd::prelude::*;

verus! {

/// Whether two strings hold the same characters.
pub fn same(a: &str, b: &str) -> (r: bool)
    ensures
        r == (a@ == b@),
{
    let x = a.as_bytes();
    let y = b.as_bytes();
    proof {
        vstd::utf8::encode_utf8_decode_utf8(a@);
        vstd::utf8::encode_utf8_decode_utf8(b@);
    }
    if x.len() != y.len() {
        return false;
    }
    let mut i: usize = 0;
    while i < x.len()
        invariant
            i <= x@.len(),
            x@.len() == y@.len(),
            x@ == vstd::utf8::encode_utf8(a@),
            y@ == vstd::utf8::encode_utf8(b@),
            forall|j: int| 0 <= j < i ==> x@[j] == y@[j],
        decreases x@.len() - i,
    {
        if x[i] != y[i] {
            return false;
        }
        i = i + 1;
    }
    assert(x@ =~= y@);
    true
}

/// The characters of a string.
pub fn chars_of(s: &str) -> (v: Vec<char>)
    ensures
        v@ == s@,
{
    let n: usize = s.unicode_len();
    let mut v: Vec<char> = Vec::new();
    let mut i: usize = 0;
    while i < n
        invariant
            n == s@.len(),
            i <= n,
            v@ == s@.subrange(0, i as int),
        decreases n - i,
    {
        v.push(s.get_char(i));
        i = i + 1;
        assert(s@.subrange(0, i as int) =~= s@.subrange(0, i - 1).push(s@[i - 1]));
    }
    assert(s@.subrange(0, n as int) =~= s@);
    v
}

/// Whether a character separates words.
pub open spec fn blank(c: char) -> bool {
    let x = c as int;
    9 <= x <= 13 || x == 32 || x == 0x85 || x == 0xA0 || x == 0x1680 || 0x2000 <= x <= 0x200A || x == 0x2028 || x == 0x2029
        || x == 0x202F || x == 0x205F || x == 0x3000
}

/// Whether a character separates words.
pub fn is_blank(c: char) -> (r: bool)
    ensures
        r == blank(c),
{
    let x: u32 = c as u32;
    (9 <= x && x <= 13) || x == 32 || x == 0x85 || x == 0xA0 || x == 0x1680 || (0x2000 <= x && x <= 0x200A) || x == 0x2028
        || x == 0x2029 || x == 0x202F || x == 0x205F || x == 0x3000
}

/// The words of `s` from place `i` on, the first of which begins with `cur`.
pub open spec fn words_from(s: Seq<char>, i: int, cur: Seq<char>) -> Seq<Seq<char>>
    decreases s.len() - i,
{
    if i < 0 || i >= s.len() {
        if cur.len() == 0 {
            Seq::empty()
        } else {
            seq![cur]
        }
    } else if blank(s[i]) {
        if cur.len() == 0 {
            words_from(s, i + 1, Seq::empty())
        } else {
            seq![cur] + words_from(s, i + 1, Seq::empty())
        }
    } else {
        words_from(s, i + 1, cur.push(s[i]))
    }
}

/// The words of a text: its longest runs without blanks.
pub open spec fn words(s: Seq<char>) -> Seq<Seq<char>> {
    words_from(s, 0, Seq::empty())
}

/// The characters of each of a list of words.
pub open spec fn spelled(v: Seq<Vec<char>>) -> Seq<Seq<char>> {
    Seq::new(v.len(), |i: int| v[i]@)
}

/// The words from `from` on.
pub fn words_behind(w: &Vec<Vec<char>>, from: usize) -> (r: Vec<Vec<char>>)
    requires
        from <= w@.len(),
    ensures
        spelled(r@) == spelled(w@).skip(from as int),
{
    let mut r: Vec<Vec<char>> = Vec::new();
    let mut i: usize = from;
    while i < w.len()
        invariant
            from <= i <= w@.len(),
            r@.len() == i - from,
            forall|k: int| 0 <= k < r@.len() ==> (#[trigger] r@[k])@ == w@[from + k]@,
        decreases w@.len() - i,
    {
        let mut word: Vec<char> = Vec::new();
        let mut j: usize = 0;
        while j < w[i].len()
            invariant
                i < w@.len(),
                j <= w@[i as int]@.len(),
                word@ == w@[i as int]@.take(j as int),
            decreases w@[i as int]@.len() - j,
        {
            word.push(w[i][j]);
            j = j + 1;
            assert(word@ =~= w@[i as int]@.take(j as int));
        }
        assert(word@ =~= w@[i as int]@);
        r.push(word);
        i = i + 1;
    }
    assert(spelled(r@) =~= spelled(w@).skip(from as int));
    r
}

/// Splits a text into words.
pub fn words_of(s: &Vec<char>) -> (v: Vec<Vec<char>>)
    ensures
        spelled(v@) == words(s@),
{
    let mut v: Vec<Vec<char>> = Vec::new();
    let mut cur: Vec<char> = Vec::new();
    let mut i: usize = 0;
    assert(spelled(v@) + words_from(s@, 0, cur@) =~= words(s@));
    while i < s.len()
        invariant
            i <= s@.len(),
            spelled(v@) + words_from(s@, i as int, cur@) == words(s@),
        decreases s@.len() - i,
    {
        let c = s[i];
        if is_blank(c) {
            if cur.len() > 0 {
                let ghost v0 = v@;
                let ghost w = cur@;
                v.push(cur);
                cur = Vec::new();
                proof {
                    let rest = words_from(s@, i + 1, Seq::<char>::empty());
                    assert(spelled(v@) + rest =~= spelled(v0) + (seq![w] + rest));
                    assert(cur@ =~= Seq::<char>::empty());
                }
            } else {
                assert(cur@ =~= Seq::<char>::empty());
            }
        } else {
            cur.push(c);
        }
        i = i + 1;
    }
    if cur.len() > 0 {
        let ghost v0 = v@;
        let ghost w = cur@;
        v.push(cur);
        assert(spelled(v@) =~= spelled(v0) + seq![w]);
    } else {
        assert(spelled(v@) =~= words(s@));
    }
    v
}

/// The value of a decimal digit.
pub open spec fn digit(c: char) -> Option<int> {
    if '0' <= c && c <= '9' {
        Some(c as int - '0' as int)
    } else {
        None
    }
}

/// The number that the first `n` characters spell in decimal.
pub open spec fn number_below(s: Seq<char>, n: nat) -> Option<int>
    decreases n,
{
    if n == 0 {
        Some(0)
    } else {
        match (number_below(s, (n - 1) as nat), digit(s[n - 1])) {
            (Some(x), Some(d)) => Some(10 * x + d),
            _ => None,
        }
    }
}

/// The number that a word spells in decimal.
pub open spec fn number(s: Seq<char>) -> Option<int> {
    if s.len() == 0 {
        None
    } else {
        number_below(s, s.len())
    }
}

/// A word that is no number at some place is none as a whole, and numbers only grow.
proof fn lemma_number_prefix(s: Seq<char>, m: nat, n: nat)
    requires
        m <= n <= s.len(),
    ensures
        number_below(s, m) is None ==> number_below(s, n) is None,
        number_below(s, n) is Some ==> number_below(s, m) is Some && 0 <= number_below(s, m)->0 <= number_below(s, n)->0,
    decreases n,
{
    if m < n {
        lemma_number_prefix(s, m, (n - 1) as nat);
    } else if n > 0 {
        lemma_number_prefix(s, 0, (n - 1) as nat);
    }
}

/// Reads a decimal number that fits into 32 bits.
pub fn number_of(s: &Vec<char>) -> (r: Option<u32>)
    ensures
        match r {
            Some(x) => number(s@) == Some(x as int),
            None => number(s@) is None || number(s@)->0 > u32::MAX,
        },
{
    if s.len() == 0 {
        return None;
    }
    let mut x: u64 = 0;
    let mut i: usize = 0;
    while i < s.len()
        invariant
            i <= s@.len(),
            number_below(s@, i as nat) == Some(x as int),
            x <= u32::MAX,
        decreases s@.len() - i,
    {
        let c = s[i];
        if c < '0' || c > '9' {
            proof {
                assert(number_below(s@, (i + 1) as nat) is None);
                lemma_number_prefix(s@, (i + 1) as nat, s@.len());
            }
            return None;
        }
        x = 10 * x + (c as u32 - '0' as u32) as u64;
        i = i + 1;
        if x > u32::MAX as u64 {
            proof {
                lemma_number_prefix(s@, i as nat, s@.len());
            }
            return None;
        }
    }
    Some(x as u32)
}

/// The number that a word spells, with or without a plus sign.
pub open spec fn unsigned(s: Seq<char>) -> Option<int> {
    if s.len() > 0 && s[0] == '+' {
        number(s.skip(1))
    } else {
        number(s)
    }
}

/// The number that a word spells, with or without a sign.
pub open spec fn signed(s: Seq<char>) -> Option<int> {
    if s.len() > 0 && s[0] == '-' {
        match number(s.skip(1)) {
            Some(x) => Some(-x),
            None => None,
        }
    } else {
        unsigned(s)
    }
}

/// The part of `s` behind its first character.
fn tail(s: &Vec<char>) -> (v: Vec<char>)
    requires
        s@.len() > 0,
    ensures
        v@ == s@.skip(1),
{
    let mut v: Vec<char> = Vec::new();
    let mut i: usize = 1;
    while i < s.len()
        invariant
            1 <= i <= s@.len(),
            v@ == s@.subrange(1, i as int),
        decreases s@.len() - i,
    {
        v.push(s[i]);
        i = i + 1;
        assert(v@ =~= s@.subrange(1, i as int));
    }
    assert(v@ =~= s@.skip(1));
    v
}

/// Reads a decimal number that fits into 64 bits.
pub fn long_number_of(s: &Vec<char>) -> (r: Option<u64>)
    ensures
        match r {
            Some(x) => number(s@) == Some(x as int),
            None => number(s@) is None || number(s@)->0 > u64::MAX,
        },
{
    if s.len() == 0 {
        return None;
    }
    let mut x: u128 = 0;
    let mut i: usize = 0;
    while i < s.len()
        invariant
            i <= s@.len(),
            number_below(s@, i as nat) == Some(x as int),
            x <= u64::MAX,
        decreases s@.len() - i,
    {
        let c = s[i];
        if c < '0' || c > '9' {
            proof {
                assert(number_below(s@, (i + 1) as nat) is None);
                lemma_number_prefix(s@, (i + 1) as nat, s@.len());
            }
            return None;
        }
        x = 10 * x + (c as u32 - '0' as u32) as u128;
        i = i + 1;
        if x > u64::MAX as u128 {
            proof {
                lemma_number_prefix(s@, i as nat, s@.len());
            }
            return None;
        }
    }
    Some(x as u64)
}

/// Reads a number that fits into 64 bits, with or without a plus sign.
pub fn unsigned_of(s: &Vec<char>) -> (r: Option<u64>)
    ensures
        match r {
            Some(x) => unsigned(s@) == Some(x as int),
            None => unsigned(s@) is None || unsigned(s@)->0 > u64::MAX,
        },
{
    if s.len() > 0 && s[0] == '+' {
        long_number_of(&tail(s))
    } else {
        long_number_of(s)
    }
}

/// Reads a number that fits into 32 bits, with or without a sign.
pub fn signed_of(s: &Vec<char>) -> (r: Option<i32>)
    ensures
        match r {
            Some(x) => signed(s@) == Some(x as int),
            None => signed(s@) is None || signed(s@)->0 < i32::MIN || signed(s@)->0 > i32::MAX,
        },
{
    if s.len() > 0 && s[0] == '-' {
        match long_number_of(&tail(s)) {
            Some(x) => if x <= 0x8000_0000 {
                Some((-(x as i64)) as i32)
            } else {
                None
            },
            None => None,
        }
    } else {
        match unsigned_of(s) {
            Some(x) => if x <= 0x7FFF_FFFF {
                Some(x as i32)
            } else {
                None
            },
            None => None,
        }
    }
}

/// A letter of the alphabet in lower case; any other character as it is.
pub open spec fn lower(c: char) -> char {
    if 'A' <= c && c <= 'Z' {
        (c as int + 32) as char
    } else {
        c
    }
}

/// The word in lower case.
pub open spec fn lowered(s: Seq<char>) -> Seq<char> {
    s.map_values(|c: char| lower(c))
}

/// Whether a word, its case aside, is the one given in lower case.
pub fn is_lowered(s: &Vec<char>, word: &str) -> (r: bool)
    ensures
        r == (lowered(s@) == word@),
{
    let w = chars_of(word);
    if s.len() != w.len() {
        proof {
            assert(lowered(s@).len() == s@.len());
        }
        return false;
    }
    let mut i: usize = 0;
    while i < s.len()
        invariant
            i <= s@.len(),
            s@.len() == w@.len(),
            w@ == word@,
            forall|j: int| 0 <= j < i ==> lower(#[trigger] s@[j]) == w@[j],
        decreases s@.len() - i,
    {
        let a: char = s[i];
        let b: char = w[i];
        let alike = if 'A' <= a && a <= 'Z' {
            'a' <= b && b <= 'z' && a as u32 + 32 == b as u32
        } else {
            a == b
        };
        assert(alike == (lower(a) == b));
        if !alike {
            assert(lowered(s@)[i as int] != word@[i as int]);
            return false;
        }
        i = i + 1;
    }
    assert(lowered(s@) =~= word@);
    true
}

/// Whether a word is the one given.
pub fn is_word(s: &Vec<char>, word: &str) -> (r: bool)
    ensures
        r == (s@ == word@),
{
    let w = chars_of(word);
    if s.len() != w.len() {
        return false;
    }
    let mut i: usize = 0;
    while i < s.len()
        invariant
            i <= s@.len(),
            s@.len() == w@.len(),
            w@ == word@,
            forall|j: int| 0 <= j < i ==> #[trigger] s@[j] == w@[j],
        decreases s@.len() - i,
    {
        if s[i] != w[i] {
            return false;
        }
        i = i + 1;
    }
    assert(s@ =~= word@);
    true
}

/// The character of a decimal digit.
pub open spec fn digit_char(d: int) -> char {
    (('0' as int) + d) as char
}

/// A natural number in decimal.
pub open spec fn decimal_nat(n: nat) -> Seq<char>
    decreases n,
{
    if n < 10 {
        seq![digit_char(n as int)]
    } else {
        decimal_nat(n / 10).push(digit_char((n % 10) as int))
    }
}

/// An integer in decimal.
pub open spec fn decimal(x: int) -> Seq<char> {
    if x < 0 {
        seq!['-'] + decimal_nat((-x) as nat)
    } else {
        decimal_nat(x as nat)
    }
}

/// The text of a digit.
fn digit_text(d: u64) -> (s: &'static str)
    requires
        d < 10,
    ensures
        s@ == seq![digit_char(d as int)],
{
    proof {
        reveal_strlit("0");
        reveal_strlit("1");
        reveal_strlit("2");
        reveal_strlit("3");
        reveal_strlit("4");
        reveal_strlit("5");
        reveal_strlit("6");
        reveal_strlit("7");
        reveal_strlit("8");
        reveal_strlit("9");
    }
    let s = match d {
        0 => "0",
        1 => "1",
        2 => "2",
        3 => "3",
        4 => "4",
        5 => "5",
        6 => "6",
        7 => "7",
        8 => "8",
        _ => "9",
    };
    assert(s@ =~= seq![digit_char(d as int)]);
    s
}

/// Appends a natural number in decimal.
pub fn append_nat(out: &mut String, n: u64)
    ensures
        final(out)@ == old(out)@ + decimal_nat(n as nat),
    decreases n,
{
    let ghost before = out@;
    if n >= 10 {
        append_nat(out, n / 10);
    }
    out.append(digit_text(n % 10));
    assert(out@ =~= before + decimal_nat(n as nat));
}

/// Appends an integer in decimal.
pub fn append_int(out: &mut String, x: i64)
    requires
        x > i64::MIN,
    ensures
        final(out)@ == old(out)@ + decimal(x as int),
{
    let ghost before = out@;
    if x < 0 {
        proof {
            reveal_strlit("-");
        }
        out.append("-");
        append_nat(out, (-x) as u64);
        assert(out@ =~= before + decimal(x as int));
    } else {
        append_nat(out, x as u64);
    }
}

/// A number is read back as it was written, digit by digit, with or without a sign before it.
pub proof fn law_numbers_are_read_as_they_are_written(n: nat)
    ensures
        number(decimal_nat(n)) == Some(n as int),
        unsigned(decimal_nat(n)) == Some(n as int),
        unsigned(seq!['+'] + decimal_nat(n)) == Some(n as int),
        signed(decimal(n as int)) == Some(n as int),
        signed(decimal(-n)) == Some(-n as int),
        n > 0 ==> unsigned(decimal(-n)) is None,
{
    lemma_read_back(n);
    let d = decimal_nat(n);
    assert((seq!['+'] + d).skip(1) =~= d);
    assert((seq!['-'] + d).skip(1) =~= d);
    lemma_all_digits(n);
    assert(digit(d[0]) is Some);
    if n > 0 {
        let m = decimal(-n);
        assert(m[0] == '-');
        lemma_number_prefix(m, 1, m.len());
        assert(number_below(m, 1) is None) by {
            reveal_with_fuel(number_below, 2);
        }
    }
}

proof fn lemma_all_digits(n: nat)
    ensures
        decimal_nat(n).len() > 0,
        forall|i: int| 0 <= i < decimal_nat(n).len() ==> digit(#[trigger] decimal_nat(n)[i]) is Some,
    decreases n,
{
    if n >= 10 {
        lemma_all_digits(n / 10);
    }
}

proof fn lemma_read_back(n: nat)
    ensures
        decimal_nat(n).len() > 0,
        number_below(decimal_nat(n), decimal_nat(n).len()) == Some(n as int),
    decreases n,
{
    let d = decimal_nat(n);
    if n < 10 {
        reveal_with_fuel(number_below, 2);
        assert(digit(d[0]) == Some(n as int));
    } else {
        let h = decimal_nat(n / 10);
        lemma_read_back(n / 10);
        lemma_same_below(d, h, h.len());
        assert(digit(d[d.len() - 1]) == Some((n % 10) as int));
    }
}

/// What the first characters spell depends on them alone.
proof fn lemma_same_below(s: Seq<char>, t: Seq<char>, n: nat)
    requires
        n <= s.len(),
        n <= t.len(),
        forall|i: int| 0 <= i < n ==> s[i] == t[i],
    ensures
        number_below(s, n) == number_below(t, n),
    decreases n,
{
    if n > 0 {
        lemma_same_below(s, t, (n - 1) as nat);
    }
}

/// A word with a character in it that is no digit spells no number, and each further digit counts
/// for itself and makes what stands before it count tenfold.
pub proof fn law_numbers_are_made_of_digits(s: Seq<char>, i: int, c: char)
    requires
        s.len() > 0,
        0 <= i < s.len(),
    ensures
        digit(s[i]) is None ==> number(s) is None,
        number(s) matches Some(x) ==> (digit(c) matches Some(d) ==> number(s.push(c)) == Some(10 * x + d)),
        digit(c) is None ==> number(s.push(c)) is None,
        digit(c) is Some <==> '0' <= c <= '9',
        number(Seq::<char>::empty()) is None,
{
    if digit(s[i]) is None {
        lemma_number_prefix(s, (i + 1) as nat, s.len());
        assert(number_below(s, (i + 1) as nat) is None);
    }
    lemma_same_below(s, s.push(c), s.len());
}

/// Letters of either case read alike, and nothing else changes.
pub proof fn law_case_is_put_aside(c: char)
    ensures
        'A' <= c <= 'Z' ==> lower(c) as int - 'a' as int == c as int - 'A' as int,
        !('A' <= c && c <= 'Z') ==> lower(c) == c,
        lower(lower(c)) == lower(c),
        !('A' <= lower(c) && lower(c) <= 'Z'),
{
    if 'A' <= c && c <= 'Z' {
        assert(65 <= c as int <= 90);
        assert(97 <= lower(c) as int <= 122);
    }
}

/// The words of a text hold no blanks, are not empty, and together hold every other character of
/// the text in its order.
pub proof fn law_words_are_what_stands_between_blanks(s: Seq<char>)
    ensures
        forall|k: int, j: int| 0 <= k < words(s).len() && 0 <= j < words(s)[k].len() ==> !blank(#[trigger] words(s)[k][j]),
        forall|k: int| 0 <= k < words(s).len() ==> (#[trigger] words(s)[k]).len() > 0,
        words(s).flatten() == s.filter(|c: char| !blank(c)),
{
    lemma_words_between(s, 0, Seq::empty());
    assert(s.skip(0) =~= s);
    assert(Seq::<char>::empty() + s.filter(|c: char| !blank(c)) =~= s.filter(|c: char| !blank(c)));
}

proof fn lemma_words_between(s: Seq<char>, i: int, cur: Seq<char>)
    requires
        0 <= i <= s.len(),
        forall|j: int| 0 <= j < cur.len() ==> !blank(#[trigger] cur[j]),
    ensures
        forall|k: int, j: int|
            0 <= k < words_from(s, i, cur).len() && 0 <= j < words_from(s, i, cur)[k].len() ==> !blank(
                #[trigger] words_from(s, i, cur)[k][j],
            ),
        forall|k: int| 0 <= k < words_from(s, i, cur).len() ==> (#[trigger] words_from(s, i, cur)[k]).len() > 0,
        words_from(s, i, cur).flatten() == cur + s.skip(i).filter(|c: char| !blank(c)),
    decreases s.len() - i,
{
    let f = |c: char| !blank(c);
    let w = words_from(s, i, cur);
    reveal(Seq::filter);
    if i >= s.len() {
        assert(s.skip(i).filter(f) =~= Seq::empty());
        if cur.len() == 0 {
            assert(w.flatten() =~= cur + s.skip(i).filter(f));
        } else {
            seq![cur].lemma_flatten_one_element();
            assert(w.flatten() =~= cur + s.skip(i).filter(f));
        }
    } else {
        assert(s.skip(i) =~= seq![s[i]] + s.skip(i + 1));
        Seq::filter_distributes_over_add(seq![s[i]], s.skip(i + 1), f);
        lemma_filter_one(s[i], f);
        if blank(s[i]) {
            let rest = words_from(s, i + 1, Seq::empty());
            lemma_words_between(s, i + 1, Seq::empty());
            assert(rest.flatten() =~= s.skip(i + 1).filter(f));
            if cur.len() > 0 {
                assert(w == seq![cur] + rest);
                assert(w.drop_first() =~= rest);
                assert(w.first() == cur);
                assert(w.flatten() =~= cur + rest.flatten());
                assert forall|k: int, j: int| 0 <= k < w.len() && 0 <= j < w[k].len() implies !blank(#[trigger] w[k][j]) by {
                    if k > 0 {
                        assert(w[k] == rest[k - 1]);
                        assert(!blank(rest[k - 1][j]));
                    }
                }
                assert forall|k: int| 0 <= k < w.len() implies (#[trigger] w[k]).len() > 0 by {
                    if k > 0 {
                        assert(w[k] == rest[k - 1]);
                    }
                }
            }
            assert(w.flatten() =~= cur + s.skip(i).filter(f));
        } else {
            lemma_words_between(s, i + 1, cur.push(s[i]));
            assert(cur.push(s[i]) + s.skip(i + 1).filter(f) =~= cur + (seq![s[i]] + s.skip(i + 1).filter(f)));
        }
    }
}

proof fn lemma_filter_one(c: char, f: spec_fn(char) -> bool)
    ensures
        seq![c].filter(f) == (if f(c) {
            seq![c]
        } else {
            Seq::empty()
        }),
{
    reveal(Seq::filter);
    reveal_with_fuel(Seq::filter, 2);
    assert(seq![c].drop_last() =~= Seq::empty());
    if f(c) {
        assert(seq![c].filter(f) =~= seq![c]);
    }
}

/// A blank parts the words before it from those behind it, and a run without blanks is one word.
pub proof fn law_blanks_part_words(s: Seq<char>, b: char, t: Seq<char>)
    ensures
        blank(b) ==> words(s.push(b) + t) == words(s) + words(t),
        s.len() > 0 && (forall|i: int| 0 <= i < s.len() ==> !blank(#[trigger] s[i])) ==> words(s) == seq![s],
        blank(' ') && !blank('a'),
{
    if blank(b) {
        lemma_parted(s, b, t, 0, Seq::empty());
    }
    if s.len() > 0 && (forall|i: int| 0 <= i < s.len() ==> !blank(#[trigger] s[i])) {
        lemma_one_word(s, 0);
        assert(s.take(0) =~= Seq::empty());
    }
}

proof fn lemma_parted(s: Seq<char>, b: char, t: Seq<char>, i: int, cur: Seq<char>)
    requires
        blank(b),
        0 <= i <= s.len(),
    ensures
        words_from(s.push(b) + t, i, cur) == words_from(s, i, cur) + words(t),
    decreases s.len() - i,
{
    let x = s.push(b) + t;
    if i == s.len() {
        assert(x[i] == b);
        lemma_shifted(x, t, i + 1, 0, Seq::empty());
        assert(words_from(x, i, cur) =~= words_from(s, i, cur) + words(t));
    } else {
        assert(x[i] == s[i]);
        if blank(s[i]) {
            lemma_parted(s, b, t, i + 1, Seq::empty());
            assert(words_from(x, i, cur) =~= words_from(s, i, cur) + words(t));
        } else {
            lemma_parted(s, b, t, i + 1, cur.push(s[i]));
        }
    }
}

proof fn lemma_shifted(x: Seq<char>, t: Seq<char>, n: int, j: int, cur: Seq<char>)
    requires
        0 <= n,
        0 <= j <= t.len(),
        x.len() == n + t.len(),
        forall|k: int| 0 <= k < t.len() ==> x[n + k] == #[trigger] t[k],
    ensures
        words_from(x, n + j, cur) == words_from(t, j, cur),
    decreases t.len() - j,
{
    if j < t.len() {
        assert(x[n + j] == t[j]);
        if blank(t[j]) {
            lemma_shifted(x, t, n, j + 1, Seq::empty());
        } else {
            lemma_shifted(x, t, n, j + 1, cur.push(t[j]));
        }
    }
}

proof fn lemma_one_word(s: Seq<char>, i: int)
    requires
        0 <= i <= s.len(),
        s.len() > 0,
        forall|k: int| 0 <= k < s.len() ==> !blank(#[trigger] s[k]),
    ensures
        words_from(s, i, s.take(i)) == seq![s],
    decreases s.len() - i,
{
    if i < s.len() {
        lemma_one_word(s, i + 1);
        assert(s.take(i + 1) =~= s.take(i).push(s[i]));
    } else {
        assert(s.take(i) =~= s);
    }
}

/// A number is at least zero.
pub proof fn lemma_number_is_natural(s: Seq<char>)
    ensures
        number(s) matches Some(x) ==> x >= 0,
{
    if s.len() > 0 {
        lemma_number_prefix(s, 0, s.len());
    }
}

} // verus!
