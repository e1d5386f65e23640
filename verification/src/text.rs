//! Reading and writing text: words, decimal numbers, and character output.

use vstd::prelude::*;

verus! {

/// The characters that separate words: the Unicode `White_Space` set.
pub open spec fn is_space(c: char) -> bool {
    let n = c as u32;
    (9 <= n <= 13) || n == 32 || n == 0x85 || n == 0xA0 || n == 0x1680 || (0x2000 <= n <= 0x200A)
        || n == 0x2028 || n == 0x2029 || n == 0x202F || n == 0x205F || n == 0x3000
}

pub fn space(c: char) -> (r: bool)
    ensures
        r == is_space(c),
{
    let n = c as u32;
    (9 <= n && n <= 13) || n == 32 || n == 0x85 || n == 0xA0 || n == 0x1680 || (0x2000 <= n && n
        <= 0x200A) || n == 0x2028 || n == 0x2029 || n == 0x202F || n == 0x205F || n == 0x3000
}

/// How many characters precede the first space.
pub open spec fn word_len(s: Seq<char>) -> int
    decreases s.len(),
{
    if s.len() == 0 || is_space(s[0]) {
        0
    } else {
        1 + word_len(s.drop_first())
    }
}

/// The words of a text: its maximal runs of characters that are no spaces.
pub open spec fn words(s: Seq<char>) -> Seq<Seq<char>>
    decreases s.len(),
{
    if s.len() == 0 {
        Seq::empty()
    } else if is_space(s[0]) {
        words(s.drop_first())
    } else {
        proof {
            lemma_word_len(s);
        }
        seq![s.take(word_len(s))] + words(s.skip(word_len(s)))
    }
}

pub proof fn lemma_word_len(s: Seq<char>)
    ensures
        0 <= word_len(s) <= s.len(),
        s.len() > 0 && !is_space(s[0]) ==> word_len(s) >= 1,
        forall|k: int| 0 <= k < word_len(s) ==> !is_space(#[trigger] s[k]),
        word_len(s) < s.len() ==> is_space(s[word_len(s)]),
    decreases s.len(),
{
    if s.len() > 0 && !is_space(s[0]) {
        let t = s.drop_first();
        lemma_word_len(t);
        assert forall|k: int| 0 <= k < word_len(s) implies !is_space(#[trigger] s[k]) by {
            if k > 0 {
                assert(s[k] == t[k - 1]);
            }
        }
        if word_len(s) < s.len() {
            assert(s[word_len(s)] == t[word_len(t)]);
        }
    }
}

proof fn lemma_word_len_is(s: Seq<char>, n: int)
    requires
        0 <= n <= s.len(),
        forall|k: int| 0 <= k < n ==> !is_space(#[trigger] s[k]),
        n < s.len() ==> is_space(s[n]),
    ensures
        word_len(s) == n,
{
    lemma_word_len(s);
    if word_len(s) < n {
        assert(!is_space(s[word_len(s)]));
    }
    if n < word_len(s) {
        assert(!is_space(s[n]));
    }
}

/// The views of a list of words.
pub open spec fn views(v: Seq<Vec<char>>) -> Seq<Seq<char>> {
    Seq::new(v.len(), |i: int| v[i]@)
}

/// The characters of a text.
pub fn chars_of(s: &str) -> (r: Vec<char>)
    ensures
        r@ == s@,
{
    let n = s.unicode_len();
    let mut out: Vec<char> = Vec::new();
    let mut i: usize = 0;
    while i < n
        invariant
            n == s@.len(),
            i <= n,
            out@ == s@.take(i as int),
        decreases n - i,
    {
        out.push(s.get_char(i));
        i = i + 1;
        assert(s@.take(i as int) =~= s@.take(i - 1).push(s@[i - 1]));
    }
    assert(s@.take(n as int) =~= s@);
    out
}

/// Splits a text into its words.
pub fn split_words(s: &str) -> (r: Vec<Vec<char>>)
    ensures
        views(r@) == words(s@),
{
    let text = chars_of(s);
    let mut out: Vec<Vec<char>> = Vec::new();
    let mut i: usize = 0;
    assert(views(out@) + words(text@.skip(0)) =~= words(s@)) by {
        assert(text@.skip(0) =~= s@);
    }
    while i < text.len()
        invariant
            i <= text.len(),
            text@ == s@,
            views(out@) + words(text@.skip(i as int)) == words(s@),
        decreases text.len() - i,
    {
        let ghost rest = text@.skip(i as int);
        if space(text[i]) {
            assert(rest.drop_first() =~= text@.skip(i + 1));
            i = i + 1;
        } else {
            let mut word: Vec<char> = Vec::new();
            let ghost start = i;
            while i < text.len() && !space(text[i])
                invariant
                    start <= i <= text.len(),
                    word@ == text@.subrange(start as int, i as int),
                    forall|k: int| start <= k < i ==> !is_space(#[trigger] text@[k]),
                decreases text.len() - i,
            {
                word.push(text[i]);
                i = i + 1;
                assert(text@.subrange(start as int, i as int) =~= text@.subrange(
                    start as int,
                    i - 1,
                ).push(text@[i - 1]));
            }
            proof {
                let n = i - start;
                assert forall|k: int| 0 <= k < n implies !is_space(#[trigger] rest[k]) by {
                    assert(rest[k] == text@[start + k]);
                }
                if n < rest.len() {
                    assert(rest[n] == text@[i as int]);
                }
                lemma_word_len_is(rest, n);
                assert(rest.take(n) =~= word@);
                assert(rest.skip(n) =~= text@.skip(i as int));
                assert(!is_space(rest[0]));
                assert(words(rest) == seq![word@] + words(text@.skip(i as int)));
                assert(views(out@.push(word)) =~= views(out@).push(word@));
                assert(views(out@.push(word)) + words(text@.skip(i as int)) =~= views(out@)
                    + words(rest));
            }
            out.push(word);
        }
    }
    assert(text@.skip(i as int) =~= Seq::empty());
    assert(views(out@) + words(text@.skip(i as int)) =~= views(out@));
    out
}

/// Does `w` spell `lit`?
pub fn word_is(w: &Vec<char>, lit: &str) -> (r: bool)
    ensures
        r == (w@ == lit@),
{
    let n = lit.unicode_len();
    if w.len() != n {
        return false;
    }
    let mut i: usize = 0;
    while i < n
        invariant
            n == lit@.len(),
            n == w.len(),
            i <= n,
            forall|k: int| 0 <= k < i ==> w@[k] == lit@[k],
        decreases n - i,
    {
        if w[i] != lit.get_char(i) {
            return false;
        }
        i = i + 1;
    }
    assert(w@ =~= lit@);
    true
}

// -- numbers -----------------------------------------------------------------------

pub open spec fn is_digit(c: char) -> bool {
    48 <= c as u32 <= 57
}

/// Every character is a decimal digit.
pub open spec fn all_digits(s: Seq<char>) -> bool {
    forall|i: int| 0 <= i < s.len() ==> is_digit(#[trigger] s[i])
}

/// The number that a run of digits writes.
pub open spec fn digits_value(s: Seq<char>) -> nat
    decreases s.len(),
{
    if s.len() == 0 {
        0
    } else {
        (digits_value(s.drop_last()) * 10 + (s.last() as u32 - 48)) as nat
    }
}

/// The number `s` writes as a decimal with an optional sign; a minus sign only
/// where `signed`. `None` if it writes none.
pub open spec fn number(s: Seq<char>, signed: bool) -> Option<int> {
    let neg = signed && s.len() > 0 && s[0] == '-';
    let body = if s.len() > 0 && (s[0] == '+' || neg) {
        s.drop_first()
    } else {
        s
    };
    if body.len() == 0 || !all_digits(body) {
        None
    } else if neg {
        Some(-(digits_value(body) as int))
    } else {
        Some(digits_value(body) as int)
    }
}

/// The same, if the number lies between `lo` and `hi`.
pub open spec fn number_in(s: Seq<char>, signed: bool, lo: int, hi: int) -> Option<int> {
    match number(s, signed) {
        Some(n) => if lo <= n <= hi {
            Some(n)
        } else {
            None
        },
        None => None,
    }
}

/// Digits only ever add to a number.
proof fn lemma_digits_grow(s: Seq<char>, k: int)
    requires
        0 <= k <= s.len(),
        all_digits(s),
    ensures
        digits_value(s.take(k)) <= digits_value(s),
    decreases s.len() - k,
{
    if k < s.len() {
        let t = s.take(k + 1);
        assert(t.drop_last() =~= s.take(k));
        assert(is_digit(s[k]));
        assert(t.last() == s[k]);
        lemma_digits_grow(s, k + 1);
    } else {
        assert(s.take(k) =~= s);
    }
}

/// Reads the magnitude of a number starting at `from`, giving up above `max`.
fn magnitude(s: &Vec<char>, from: usize, max: u128) -> (r: Option<u128>)
    requires
        from <= s.len(),
        max <= 0xFFFF_FFFF_FFFF_FFFF,
    ensures
        ({
            let body = s@.skip(from as int);
            match r {
                Some(v) => body.len() > 0 && all_digits(body) && v == digits_value(body) && v
                    <= max,
                None => body.len() == 0 || !all_digits(body) || digits_value(body) > max,
            }
        }),
{
    let ghost body = s@.skip(from as int);
    if from >= s.len() {
        return None;
    }
    let mut v: u128 = 0;
    let mut over = false;
    let mut i: usize = from;
    while i < s.len()
        invariant
            from <= i <= s.len(),
            body == s@.skip(from as int),
            max <= 0xFFFF_FFFF_FFFF_FFFF,
            all_digits(body.take(i - from)),
            !over ==> v == digits_value(body.take(i - from)) && v <= max,
            over ==> digits_value(body.take(i - from)) > max,
        decreases s.len() - i,
    {
        let c = s[i] as u32;
        if c < 48 || c > 57 {
            assert(!is_digit(body[i - from]));
            return None;
        }
        let ghost pre = body.take(i - from);
        let ghost post = body.take(i + 1 - from);
        proof {
            assert(post.drop_last() =~= pre);
            assert(post.last() == s@[i as int]);
            assert forall|k: int| 0 <= k < post.len() implies is_digit(#[trigger] post[k]) by {
                if k < pre.len() {
                    assert(post[k] == pre[k]);
                }
            }
        }
        if !over {
            v = v * 10 + (c - 48) as u128;
            if v > max {
                over = true;
            }
        }
        i = i + 1;
    }
    assert(body.take(i - from) =~= body);
    if over {
        None
    } else {
        Some(v)
    }
}

/// Reads an unsigned number no greater than `max`.
pub fn parse_unsigned(s: &Vec<char>, max: u64) -> (r: Option<u64>)
    ensures
        match r {
            Some(v) => number_in(s@, false, 0, max as int) == Some(v as int),
            None => number_in(s@, false, 0, max as int) is None,
        },
{
    let from: usize = if s.len() > 0 && s[0] == '+' {
        1
    } else {
        0
    };
    proof {
        assert(s@.skip(0) =~= s@);
        if s@.len() > 0 {
            assert(s@.skip(1) =~= s@.drop_first());
        }
    }
    match magnitude(s, from, max as u128) {
        Some(v) => Some(v as u64),
        None => None,
    }
}

/// Reads a signed number between `-max - 1` and `max`.
pub fn parse_signed(s: &Vec<char>, max: i64) -> (r: Option<i64>)
    requires
        max >= 0,
    ensures
        match r {
            Some(v) => number_in(s@, true, -max - 1, max as int) == Some(v as int),
            None => number_in(s@, true, -max - 1, max as int) is None,
        },
{
    let neg = s.len() > 0 && s[0] == '-';
    let from: usize = if neg || (s.len() > 0 && s[0] == '+') {
        1
    } else {
        0
    };
    proof {
        assert(s@.skip(0) =~= s@);
        if s@.len() > 0 {
            assert(s@.skip(1) =~= s@.drop_first());
        }
    }
    let bound: u128 = if neg {
        max as u128 + 1
    } else {
        max as u128
    };
    match magnitude(s, from, bound) {
        Some(v) => {
            if neg {
                Some((-(v as i128)) as i64)
            } else {
                Some(v as i64)
            }
        },
        None => None,
    }
}

// -- output ------------------------------------------------------------------------

/// Appends one character: `String::push`, which adds it at the end.
#[verifier::external_body]
pub(crate) fn push_char(s: &mut String, c: char)
    ensures
        final(s)@ == old(s)@.push(c),
{
    s.push(c)
}

/// The decimal digits of `n`, most significant first.
pub open spec fn decimal(n: nat) -> Seq<char>
    decreases n,
{
    if n < 10 {
        seq![((48 + n) as u8) as char]
    } else {
        decimal(n / 10).push(((48 + n % 10) as u8) as char)
    }
}

/// The decimal text of an integer.
pub open spec fn decimal_int(n: int) -> Seq<char> {
    if n < 0 {
        seq!['-'] + decimal((-n) as nat)
    } else {
        decimal(n as nat)
    }
}

/// Appends the decimal digits of `n`.
pub fn push_decimal(s: &mut String, n: u64)
    ensures
        final(s)@ == old(s)@ + decimal(n as nat),
    decreases n,
{
    let ghost before = s@;
    if n >= 10 {
        push_decimal(s, n / 10);
    }
    push_char(s, (48 + (n % 10) as u8) as char);
    assert(s@ =~= before + decimal(n as nat));
}

/// Appends a signed number.
pub fn push_decimal_int(s: &mut String, n: i64)
    requires
        n > i64::MIN,
    ensures
        final(s)@ == old(s)@ + decimal_int(n as int),
{
    let ghost before = s@;
    if n < 0 {
        push_char(s, '-');
        push_decimal(s, (-n) as u64);
        assert(s@ =~= before + decimal_int(n as int));
    } else {
        push_decimal(s, n as u64);
    }
}

} // verus!
