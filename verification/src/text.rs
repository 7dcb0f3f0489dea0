//! Text primitives shared by all the line parsers: whitespace tokenization,
//! line and field splitting, trimming, substring search, and decimal and
//! hexadecimal numerals.  Each executable function is proved equal to a spec
//! function over sequences of characters; the line parsers compose those spec
//! functions into their own contracts.

use vstd::prelude::*;

verus! {

/// The whitespace characters recognized by the tokenizer: the ASCII blanks
/// that the supported tools emit between columns.
pub open spec fn is_space(c: char) -> bool {
    c == ' ' || c == '\t' || c == '\r' || c == '\n'
}

/// Executable mirror of [`is_space`].
pub fn space_char(c: char) -> (r: bool)
    ensures
        r == is_space(c),
{
    c == ' ' || c == '\t' || c == '\r' || c == '\n'
}

pub open spec fn is_digit(c: char) -> bool {
    '0' <= c && c <= '9'
}

pub open spec fn digit_val(c: char) -> nat {
    (c as u32 - '0' as u32) as nat
}

pub open spec fn all_digits(s: Seq<char>) -> bool {
    forall|i: int| 0 <= i < s.len() ==> is_digit(#[trigger] s[i])
}

/// The value of a sequence of decimal digits, most significant first.
pub open spec fn dec_val(s: Seq<char>) -> nat
    decreases s.len(),
{
    if s.len() == 0 {
        0
    } else {
        dec_val(s.drop_last()) * 10 + digit_val(s.last())
    }
}

/// The numeral grammar the parsers accept for an unsigned integer with
/// maximum value `max`: one or more decimal digits — no sign, no blanks —
/// whose value fits; anything else is nothing.
pub open spec fn spec_parse_dec(s: Seq<char>, max: u64) -> Option<u64> {
    if s.len() > 0 && all_digits(s) && dec_val(s) <= max {
        Some(dec_val(s) as u64)
    } else {
        None
    }
}

/// A longer digit string never has a smaller value: the value of a prefix
/// bounds the value of the whole from below.
pub proof fn lemma_dec_val_take_mono(s: Seq<char>, i: int, j: int)
    requires
        0 <= i <= j <= s.len(),
    ensures
        dec_val(s.take(i)) <= dec_val(s.take(j)),
    decreases j - i,
{
    if i < j {
        lemma_dec_val_take_mono(s, i, j - 1);
        assert(s.take(j).drop_last() =~= s.take(j - 1));
        assert(dec_val(s.take(j)) == dec_val(s.take(j - 1)) * 10 + digit_val(s.take(j).last()));
    }
}

/// Parses a run of decimal digits as a value at most `max`.
pub fn parse_dec_bounded(s: &str, max: u64) -> (r: Option<u64>)
    ensures
        r == spec_parse_dec(s@, max),
{
    let n = s.unicode_len();
    if n == 0 {
        return None;
    }
    let mut i: usize = 0;
    let mut acc: u64 = 0;
    while i < n
        invariant
            0 < n == s@.len(),
            0 <= i <= n,
            all_digits(s@.take(i as int)),
            acc == dec_val(s@.take(i as int)),
            acc <= max,
        decreases n - i,
    {
        let c = s.get_char(i);
        if !('0' <= c && c <= '9') {
            assert(!all_digits(s@));
            return None;
        }
        let d: u64 = (c as u32 - 48) as u64;
        let next: u128 = acc as u128 * 10 + d as u128;
        assert(s@.take(i + 1).drop_last() =~= s@.take(i as int));
        assert(s@.take(i + 1).last() == s@[i as int]);
        if next > max as u128 {
            proof {
                if all_digits(s@) {
                    lemma_dec_val_take_mono(s@, i + 1, s@.len() as int);
                    assert(s@.take(s@.len() as int) =~= s@);
                }
            }
            return None;
        }
        acc = next as u64;
        i = i + 1;
    }
    proof {
        assert(s@.take(n as int) =~= s@);
    }
    Some(acc)
}

pub open spec fn is_hex_digit(c: char) -> bool {
    is_digit(c) || ('a' <= c && c <= 'f') || ('A' <= c && c <= 'F')
}

pub open spec fn hex_digit_val(c: char) -> nat {
    if is_digit(c) {
        digit_val(c)
    } else if 'a' <= c && c <= 'f' {
        (c as u32 - 'a' as u32 + 10) as nat
    } else {
        (c as u32 - 'A' as u32 + 10) as nat
    }
}

pub open spec fn all_hex_digits(s: Seq<char>) -> bool {
    forall|i: int| 0 <= i < s.len() ==> is_hex_digit(#[trigger] s[i])
}

/// The value of a sequence of hexadecimal digits, most significant first.
pub open spec fn hex_val(s: Seq<char>) -> nat
    decreases s.len(),
{
    if s.len() == 0 {
        0
    } else {
        hex_val(s.drop_last()) * 16 + hex_digit_val(s.last())
    }
}

/// The numeral grammar the pseudo-table parser accepts for a 16-bit port:
/// one or more hexadecimal digits (either case) — no sign, no blanks —
/// whose value fits in 16 bits; anything else is nothing.
pub open spec fn spec_parse_hex_u16(s: Seq<char>) -> Option<u16> {
    if s.len() > 0 && all_hex_digits(s) && hex_val(s) <= 0xFFFF {
        Some(hex_val(s) as u16)
    } else {
        None
    }
}

pub proof fn lemma_hex_val_take_mono(s: Seq<char>, i: int, j: int)
    requires
        0 <= i <= j <= s.len(),
    ensures
        hex_val(s.take(i)) <= hex_val(s.take(j)),
    decreases j - i,
{
    if i < j {
        lemma_hex_val_take_mono(s, i, j - 1);
        assert(s.take(j).drop_last() =~= s.take(j - 1));
        assert(hex_val(s.take(j)) == hex_val(s.take(j - 1)) * 16 + hex_digit_val(s.take(j).last()));
    }
}

/// Parses a run of hexadecimal digits as a 16-bit value.
pub fn parse_hex_u16(s: &str) -> (r: Option<u16>)
    ensures
        r == spec_parse_hex_u16(s@),
{
    let n = s.unicode_len();
    if n == 0 {
        return None;
    }
    let mut i: usize = 0;
    let mut acc: u32 = 0;
    while i < n
        invariant
            0 < n == s@.len(),
            0 <= i <= n,
            all_hex_digits(s@.take(i as int)),
            acc == hex_val(s@.take(i as int)),
            acc <= 0xFFFF,
        decreases n - i,
    {
        let c = s.get_char(i);
        let d: u32 = if '0' <= c && c <= '9' {
            c as u32 - 48
        } else if 'a' <= c && c <= 'f' {
            c as u32 - 97 + 10
        } else if 'A' <= c && c <= 'F' {
            c as u32 - 65 + 10
        } else {
            assert(!all_hex_digits(s@));
            return None;
        };
        let next: u32 = acc * 16 + d;
        assert(s@.take(i + 1).drop_last() =~= s@.take(i as int));
        assert(s@.take(i + 1).last() == s@[i as int]);
        if next > 0xFFFF {
            proof {
                if all_hex_digits(s@) {
                    lemma_hex_val_take_mono(s@, i + 1, s@.len() as int);
                    assert(s@.take(s@.len() as int) =~= s@);
                }
            }
            return None;
        }
        acc = next;
        i = i + 1;
    }
    proof {
        assert(s@.take(n as int) =~= s@);
    }
    Some(acc as u16)
}

pub open spec fn digit_char(d: nat) -> char {
    if d == 0 {
        '0'
    } else if d == 1 {
        '1'
    } else if d == 2 {
        '2'
    } else if d == 3 {
        '3'
    } else if d == 4 {
        '4'
    } else if d == 5 {
        '5'
    } else if d == 6 {
        '6'
    } else if d == 7 {
        '7'
    } else if d == 8 {
        '8'
    } else {
        '9'
    }
}

/// The canonical decimal numeral of `n`: most significant digit first, no
/// leading zero except for `n == 0` itself.
pub open spec fn dec_digits(n: nat) -> Seq<char>
    decreases n,
{
    if n < 10 {
        seq![digit_char(n)]
    } else {
        dec_digits(n / 10).push(digit_char(n % 10))
    }
}

/// The canonical numeral is made of digits and evaluates back to its value.
pub proof fn lemma_dec_digits_val(n: nat)
    ensures
        dec_digits(n).len() >= 1,
        all_digits(dec_digits(n)),
        dec_val(dec_digits(n)) == n,
    decreases n,
{
    if n < 10 {
        let s = dec_digits(n);
        assert(s.len() == 1);
        assert(s.last() == digit_char(n));
        assert(s.drop_last() =~= Seq::<char>::empty());
        assert(dec_val(s.drop_last()) == 0);
        assert(dec_val(s) == digit_val(digit_char(n)));
    } else {
        lemma_dec_digits_val(n / 10);
        vstd::arithmetic::div_mod::lemma_fundamental_div_mod(n as int, 10);
        let s = dec_digits(n);
        assert(s.drop_last() =~= dec_digits(n / 10));
        assert(s.last() == digit_char(n % 10));
        assert(digit_val(digit_char(n % 10)) == n % 10);
        assert(forall|i: int|
            0 <= i < s.len() ==> is_digit(#[trigger] s[i])) by {
            assert(forall|i: int|
                0 <= i < s.len() - 1 ==> s[i] == dec_digits(n / 10)[i]);
        }
    }
}

fn digit_str(d: u64) -> (r: &'static str)
    requires
        d < 10,
    ensures
        r@ == seq![digit_char(d as nat)],
{
    proof {
        reveal_strlit("0");
        reveal_strlit("1");
        reveal_strlit("2");
        reveal_strlit("3");
        reveal_strlit("4");
        reveal_strlit("5");
        reveal_strlit("6");
        reveal_strlit("7");
        reveal_strlit("8");
        reveal_strlit("9");
    }
    let r = if d == 0 {
        "0"
    } else if d == 1 {
        "1"
    } else if d == 2 {
        "2"
    } else if d == 3 {
        "3"
    } else if d == 4 {
        "4"
    } else if d == 5 {
        "5"
    } else if d == 6 {
        "6"
    } else if d == 7 {
        "7"
    } else if d == 8 {
        "8"
    } else {
        "9"
    };
    proof {
        assert(r@ =~= seq![digit_char(d as nat)]);
    }
    r
}

/// Renders `n` as its canonical decimal numeral, as `u64::to_string` does.
pub fn u64_to_dec(n: u64) -> (r: String)
    ensures
        r@ == dec_digits(n as nat),
    decreases n,
{
    if n < 10 {
        digit_str(n).to_owned()
    } else {
        let mut r = u64_to_dec(n / 10);
        r.append(digit_str(n % 10));
        proof {
            assert(dec_digits((n / 10) as nat) + seq![digit_char((n % 10) as nat)] =~= dec_digits(
                n as nat,
            ));
        }
        r
    }
}

pub open spec fn split_acc(s: Seq<char>, sep: char, done: Seq<Seq<char>>, cur: Seq<char>) -> Seq<
    Seq<char>,
>
    decreases s.len(),
{
    if s.len() == 0 {
        done.push(cur)
    } else if s[0] == sep {
        split_acc(s.drop_first(), sep, done.push(cur), Seq::empty())
    } else {
        split_acc(s.drop_first(), sep, done, cur.push(s[0]))
    }
}

/// The pieces of a text split at a separator character: the (possibly
/// empty) stretches between its occurrences; the empty text gives one empty
/// piece.
pub open spec fn split_char(s: Seq<char>, sep: char) -> Seq<Seq<char>> {
    split_acc(s, sep, Seq::empty(), Seq::empty())
}

/// Splits `s` at every occurrence of `sep`.
pub fn split_on_char(s: &str, sep: char) -> (r: Vec<String>)
    ensures
        r.deep_view() == split_char(s@, sep),
{
    let n = s.unicode_len();
    let mut done: Vec<String> = Vec::new();
    let mut start: usize = 0;
    let mut i: usize = 0;
    proof {
        assert(done.deep_view() =~= Seq::<Seq<char>>::empty());
        assert(s@.subrange(0, 0) =~= Seq::<char>::empty());
        assert(s@.skip(0) =~= s@);
    }
    while i < n
        invariant
            n == s@.len(),
            0 <= start <= i <= n,
            split_acc(s@.skip(i as int), sep, done.deep_view(), s@.subrange(start as int, i as int))
                == split_char(s@, sep),
        decreases n - i,
    {
        let ghost prev = done.deep_view();
        let ghost cur = s@.subrange(start as int, i as int);
        let c = s.get_char(i);
        proof {
            assert(s@.skip(i as int)[0] == s@[i as int]);
            assert(s@.skip(i as int).drop_first() =~= s@.skip(i + 1));
        }
        if c == sep {
            let piece = s.substring_char(start, i).to_owned();
            done.push(piece);
            proof {
                assert(done.deep_view() =~= prev.push(cur));
                assert(s@.subrange(i + 1, i + 1) =~= Seq::<char>::empty());
            }
            start = i + 1;
        } else {
            proof {
                assert(s@.subrange(start as int, i + 1) =~= cur.push(s@[i as int]));
            }
        }
        i = i + 1;
    }
    let ghost prev = done.deep_view();
    let last = s.substring_char(start, n).to_owned();
    done.push(last);
    proof {
        assert(s@.skip(n as int) =~= Seq::<char>::empty());
        assert(done.deep_view() =~= prev.push(s@.subrange(start as int, n as int)));
    }
    done
}

pub open spec fn tokens_acc(s: Seq<char>, done: Seq<Seq<char>>, cur: Seq<char>) -> Seq<Seq<char>>
    decreases s.len(),
{
    if s.len() == 0 {
        if cur.len() == 0 {
            done
        } else {
            done.push(cur)
        }
    } else if is_space(s[0]) {
        if cur.len() == 0 {
            tokens_acc(s.drop_first(), done, cur)
        } else {
            tokens_acc(s.drop_first(), done.push(cur), Seq::empty())
        }
    } else {
        tokens_acc(s.drop_first(), done, cur.push(s[0]))
    }
}

/// The tokens of a line: the maximal runs of characters outside the ASCII
/// blank class above, in order; blanks at either end contribute nothing.
pub open spec fn tokens_of(s: Seq<char>) -> Seq<Seq<char>> {
    tokens_acc(s, Seq::empty(), Seq::empty())
}

/// Splits `s` into its whitespace-separated tokens.
pub fn split_tokens(s: &str) -> (r: Vec<String>)
    ensures
        r.deep_view() == tokens_of(s@),
{
    let n = s.unicode_len();
    let mut done: Vec<String> = Vec::new();
    let mut start: usize = 0;
    let mut i: usize = 0;
    proof {
        assert(done.deep_view() =~= Seq::<Seq<char>>::empty());
        assert(s@.subrange(0, 0) =~= Seq::<char>::empty());
        assert(s@.skip(0) =~= s@);
    }
    while i < n
        invariant
            n == s@.len(),
            0 <= start <= i <= n,
            tokens_acc(s@.skip(i as int), done.deep_view(), s@.subrange(start as int, i as int))
                == tokens_of(s@),
        decreases n - i,
    {
        let ghost prev = done.deep_view();
        let ghost cur = s@.subrange(start as int, i as int);
        let c = s.get_char(i);
        proof {
            assert(s@.skip(i as int)[0] == s@[i as int]);
            assert(s@.skip(i as int).drop_first() =~= s@.skip(i + 1));
        }
        if space_char(c) {
            if start < i {
                let piece = s.substring_char(start, i).to_owned();
                done.push(piece);
                proof {
                    assert(done.deep_view() =~= prev.push(cur));
                }
            } else {
                proof {
                    assert(cur =~= Seq::<char>::empty());
                }
            }
            proof {
                assert(s@.subrange(i + 1, i + 1) =~= Seq::<char>::empty());
            }
            start = i + 1;
        } else {
            proof {
                assert(s@.subrange(start as int, i + 1) =~= cur.push(s@[i as int]));
            }
        }
        i = i + 1;
    }
    proof {
        assert(s@.skip(n as int) =~= Seq::<char>::empty());
    }
    if start < n {
        let ghost prev = done.deep_view();
        let last = s.substring_char(start, n).to_owned();
        done.push(last);
        proof {
            assert(done.deep_view() =~= prev.push(s@.subrange(start as int, n as int)));
        }
    }
    done
}

pub open spec fn strip_one_cr(s: Seq<char>) -> Seq<char> {
    if s.len() > 0 && s.last() == '\r' {
        s.drop_last()
    } else {
        s
    }
}

pub open spec fn lines_acc(s: Seq<char>, done: Seq<Seq<char>>, cur: Seq<char>) -> Seq<Seq<char>>
    decreases s.len(),
{
    if s.len() == 0 {
        if cur.len() == 0 {
            done
        } else {
            done.push(cur)
        }
    } else if s[0] == '\n' {
        lines_acc(s.drop_first(), done.push(strip_one_cr(cur)), Seq::empty())
    } else {
        lines_acc(s.drop_first(), done, cur.push(s[0]))
    }
}

/// The lines of a text: split at every line feed, with one carriage return
/// stripped from the end of each line so terminated, and no empty final
/// line after a terminating line feed.
pub open spec fn lines_of(s: Seq<char>) -> Seq<Seq<char>> {
    lines_acc(s, Seq::empty(), Seq::empty())
}

/// Splits `s` into its lines.
pub fn split_lines(s: &str) -> (r: Vec<String>)
    ensures
        r.deep_view() == lines_of(s@),
{
    let n = s.unicode_len();
    let mut done: Vec<String> = Vec::new();
    let mut start: usize = 0;
    let mut i: usize = 0;
    proof {
        assert(done.deep_view() =~= Seq::<Seq<char>>::empty());
        assert(s@.subrange(0, 0) =~= Seq::<char>::empty());
        assert(s@.skip(0) =~= s@);
    }
    while i < n
        invariant
            n == s@.len(),
            0 <= start <= i <= n,
            lines_acc(s@.skip(i as int), done.deep_view(), s@.subrange(start as int, i as int))
                == lines_of(s@),
        decreases n - i,
    {
        let ghost prev = done.deep_view();
        let ghost cur = s@.subrange(start as int, i as int);
        let c = s.get_char(i);
        proof {
            assert(s@.skip(i as int)[0] == s@[i as int]);
            assert(s@.skip(i as int).drop_first() =~= s@.skip(i + 1));
        }
        if c == '\n' {
            let end = if start < i && s.get_char(i - 1) == '\r' {
                i - 1
            } else {
                i
            };
            proof {
                if start < i && s@[i - 1] == '\r' {
                    assert(cur.len() > 0 && cur.last() == '\r');
                    assert(strip_one_cr(cur) =~= s@.subrange(start as int, i - 1));
                } else {
                    assert(strip_one_cr(cur) =~= cur);
                }
            }
            let piece = s.substring_char(start, end).to_owned();
            done.push(piece);
            proof {
                assert(done.deep_view() =~= prev.push(strip_one_cr(cur)));
                assert(s@.subrange(i + 1, i + 1) =~= Seq::<char>::empty());
            }
            start = i + 1;
        } else {
            proof {
                assert(s@.subrange(start as int, i + 1) =~= cur.push(s@[i as int]));
            }
        }
        i = i + 1;
    }
    proof {
        assert(s@.skip(n as int) =~= Seq::<char>::empty());
    }
    if start < n {
        let ghost prev = done.deep_view();
        let last = s.substring_char(start, n).to_owned();
        done.push(last);
        proof {
            assert(done.deep_view() =~= prev.push(s@.subrange(start as int, n as int)));
        }
    }
    done
}

/// Whether the characters of `s` starting at `at` spell out `p`.
pub fn seq_match_at(s: &str, at: usize, p: &str) -> (r: bool)
    requires
        at + p@.len() <= s@.len(),
    ensures
        r == (s@.subrange(at as int, at + p@.len()) == p@),
{
    let n = s.unicode_len();
    let m = p.unicode_len();
    let mut j: usize = 0;
    while j < m
        invariant
            n == s@.len(),
            m == p@.len(),
            at + m <= n,
            0 <= j <= m,
            forall|k: int| 0 <= k < j ==> s@[at + k] == p@[k],
        decreases m - j,
    {
        if s.get_char(at + j) != p.get_char(j) {
            assert(s@.subrange(at as int, at + p@.len())[j as int] != p@[j as int]);
            return false;
        }
        j = j + 1;
    }
    proof {
        assert(s@.subrange(at as int, at + p@.len()) =~= p@);
    }
    true
}

/// Whether two texts spell out the same characters.
pub fn str_eq(a: &str, b: &str) -> (r: bool)
    ensures
        r == (a@ == b@),
{
    let n = a.unicode_len();
    if n != b.unicode_len() {
        return false;
    }
    let r = seq_match_at(a, 0, b);
    proof {
        assert(a@.subrange(0, b@.len() as int) =~= a@);
    }
    r
}

/// Whether `s` begins with `p`, letter for letter.
pub fn starts_with_str(s: &str, p: &str) -> (r: bool)
    ensures
        r == (s@.len() >= p@.len() && s@.take(p@.len() as int) == p@),
{
    if p.unicode_len() > s.unicode_len() {
        return false;
    }
    let r = seq_match_at(s, 0, p);
    proof {
        assert(s@.subrange(0, p@.len() as int) =~= s@.take(p@.len() as int));
    }
    r
}

/// The character position of the first occurrence of `p` inside `s`,
/// scanning left to right; the empty pattern occurs at 0.
pub open spec fn find_sub(s: Seq<char>, p: Seq<char>) -> Option<int>
    decreases s.len(),
{
    if p.len() == 0 {
        Some(0)
    } else if s.len() < p.len() {
        None
    } else if s.take(p.len() as int) == p {
        Some(0)
    } else {
        match find_sub(s.drop_first(), p) {
            Some(j) => Some(j + 1),
            None => None,
        }
    }
}

/// `find_sub` names the leftmost match: there is a match at the reported
/// position and none before it; `None` means no match anywhere.
pub proof fn lemma_find_sub_props(s: Seq<char>, p: Seq<char>)
    ensures
        match find_sub(s, p) {
            Some(i) => 0 <= i && i + p.len() <= s.len() && s.subrange(i, i + p.len() as int) == p
                && forall|k: int| 0 <= k < i ==> #[trigger] s.subrange(k, k + p.len() as int) != p,
            None => forall|k: int|
                0 <= k && k + p.len() <= s.len() ==> #[trigger] s.subrange(k, k + p.len() as int)
                    != p,
        },
    decreases s.len(),
{
    if p.len() == 0 {
        assert(s.subrange(0, 0) =~= p);
    } else if s.len() < p.len() {
    } else if s.take(p.len() as int) == p {
        assert(s.subrange(0, p.len() as int) =~= s.take(p.len() as int));
    } else {
        let t = s.drop_first();
        lemma_find_sub_props(t, p);
        assert(s.subrange(0, p.len() as int) =~= s.take(p.len() as int));
        assert forall|k: int| 1 <= k && k + p.len() <= s.len() implies #[trigger] s.subrange(
            k,
            k + p.len() as int,
        ) == t.subrange(k - 1, k - 1 + p.len() as int) by {
            assert(s.subrange(k, k + p.len() as int) =~= t.subrange(k - 1, k - 1 + p.len() as int));
        }
    }
}

/// Finds the first occurrence of `p` inside `s`.
pub fn find_substr(s: &str, p: &str) -> (r: Option<usize>)
    ensures
        match r {
            Some(i) => find_sub(s@, p@) == Some(i as int),
            None => find_sub(s@, p@) is None,
        },
{
    proof {
        lemma_find_sub_props(s@, p@);
    }
    let n = s.unicode_len();
    let m = p.unicode_len();
    if m == 0 {
        return Some(0);
    }
    if m > n {
        return None;
    }
    let mut i: usize = 0;
    while i <= n - m
        invariant
            n == s@.len(),
            m == p@.len(),
            1 <= m <= n,
            0 <= i <= n - m + 1,
            forall|k: int| 0 <= k < i ==> #[trigger] s@.subrange(k, k + p@.len() as int) != p@,
        decreases n - i,
    {
        if seq_match_at(s, i, p) {
            proof {
                lemma_find_sub_props(s@, p@);
                match find_sub(s@, p@) {
                    Some(j) => {
                        if j < i {
                            assert(s@.subrange(j, j + p@.len() as int) == p@);
                            assert(false);
                        }
                        if j > i {
                            assert(s@.subrange(i as int, i + p@.len() as int) != p@);
                            assert(false);
                        }
                    },
                    None => {
                        assert(s@.subrange(i as int, i + p@.len() as int) != p@);
                        assert(false);
                    },
                }
            }
            return Some(i);
        }
        i = i + 1;
    }
    proof {
        lemma_find_sub_props(s@, p@);
        if let Some(j) = find_sub(s@, p@) {
            assert(s@.subrange(j, j + p@.len() as int) == p@);
            assert(false);
        }
    }
    None
}

/// The character position of the last occurrence of `c` in `s`.
pub open spec fn last_char_idx(s: Seq<char>, c: char) -> Option<int>
    decreases s.len(),
{
    if s.len() == 0 {
        None
    } else if s.last() == c {
        Some(s.len() - 1)
    } else {
        last_char_idx(s.drop_last(), c)
    }
}

/// Finds the last occurrence of `c` inside `s`.
pub fn rfind_char(s: &str, c: char) -> (r: Option<usize>)
    ensures
        match r {
            Some(i) => i < s@.len() && last_char_idx(s@, c) == Some(i as int),
            None => last_char_idx(s@, c) is None,
        },
{
    let n = s.unicode_len();
    let mut i: usize = n;
    proof {
        assert(s@.take(n as int) =~= s@);
    }
    while i > 0
        invariant
            n == s@.len(),
            0 <= i <= n,
            last_char_idx(s@, c) == last_char_idx(s@.take(i as int), c),
        decreases i,
    {
        proof {
            assert(s@.take(i as int).last() == s@[i - 1]);
        }
        if s.get_char(i - 1) == c {
            return Some(i - 1);
        }
        proof {
            assert(s@.take(i as int).drop_last() =~= s@.take(i - 1));
        }
        i = i - 1;
    }
    None
}

/// `last_char_idx` names the rightmost occurrence: `c` stands at the
/// reported position and nowhere after it; `None` means `c` does not occur.
pub proof fn lemma_last_char_props(s: Seq<char>, c: char)
    ensures
        match last_char_idx(s, c) {
            Some(i) => 0 <= i < s.len() && s[i] == c && forall|j: int|
                i < j < s.len() ==> #[trigger] s[j] != c,
            None => forall|j: int| 0 <= j < s.len() ==> #[trigger] s[j] != c,
        },
    decreases s.len(),
{
    if s.len() == 0 {
    } else if s.last() == c {
    } else {
        lemma_last_char_props(s.drop_last(), c);
        assert(forall|j: int| 0 <= j < s.len() - 1 ==> s[j] == s.drop_last()[j]);
    }
}

/// The character position of the last occurrence of the two-character
/// pattern `ab` inside `s`.
pub open spec fn last_pair_idx(s: Seq<char>, a: char, b: char) -> Option<int>
    decreases s.len(),
{
    if s.len() < 2 {
        None
    } else if s[s.len() - 2] == a && s[s.len() - 1] == b {
        Some(s.len() - 2)
    } else {
        last_pair_idx(s.drop_last(), a, b)
    }
}

/// `last_pair_idx` names the rightmost occurrence: the pattern stands at the
/// reported position and nowhere after it; `None` means it does not occur.
pub proof fn lemma_last_pair_props(s: Seq<char>, a: char, b: char)
    ensures
        match last_pair_idx(s, a, b) {
            Some(i) => 0 <= i <= s.len() - 2 && s[i] == a && s[i + 1] == b && forall|j: int|
                i < j <= s.len() - 2 ==> !(#[trigger] s[j] == a && s[j + 1] == b),
            None => forall|j: int|
                0 <= j <= s.len() - 2 ==> !(#[trigger] s[j] == a && s[j + 1] == b),
        },
    decreases s.len(),
{
    if s.len() < 2 {
    } else if s[s.len() - 2] == a && s[s.len() - 1] == b {
    } else {
        lemma_last_pair_props(s.drop_last(), a, b);
        assert(forall|j: int| 0 <= j < s.len() - 1 ==> s[j] == s.drop_last()[j]);
    }
}

/// Finds the last occurrence of the two-character pattern `ab` inside `s`.
pub fn rfind_pair(s: &str, a: char, b: char) -> (r: Option<usize>)
    ensures
        match r {
            Some(i) => i + 2 <= s@.len() && last_pair_idx(s@, a, b) == Some(i as int),
            None => last_pair_idx(s@, a, b) is None,
        },
{
    let n = s.unicode_len();
    let mut i: usize = n;
    proof {
        assert(s@.take(n as int) =~= s@);
    }
    while i >= 2
        invariant
            n == s@.len(),
            0 <= i <= n,
            last_pair_idx(s@, a, b) == last_pair_idx(s@.take(i as int), a, b),
        decreases i,
    {
        proof {
            assert(s@.take(i as int)[i - 2] == s@[i - 2]);
            assert(s@.take(i as int)[i - 1] == s@[i - 1]);
        }
        if s.get_char(i - 2) == a && s.get_char(i - 1) == b {
            return Some(i - 2);
        }
        proof {
            assert(s@.take(i as int).drop_last() =~= s@.take(i - 1));
        }
        i = i - 1;
    }
    None
}

/// The characters a trim removes: either the whitespace class or one given
/// character.
pub open spec fn class_match(cl: Option<char>, c: char) -> bool {
    match cl {
        None => is_space(c),
        Some(k) => c == k,
    }
}

pub open spec fn trim_start_cl(s: Seq<char>, cl: Option<char>) -> Seq<char>
    decreases s.len(),
{
    if s.len() > 0 && class_match(cl, s[0]) {
        trim_start_cl(s.drop_first(), cl)
    } else {
        s
    }
}

pub open spec fn trim_end_cl(s: Seq<char>, cl: Option<char>) -> Seq<char>
    decreases s.len(),
{
    if s.len() > 0 && class_match(cl, s.last()) {
        trim_end_cl(s.drop_last(), cl)
    } else {
        s
    }
}

/// The text with every leading and trailing character of the class removed:
/// the ASCII blank class above (`None`), or one given character (`Some(c)`).
pub open spec fn trim_cl(s: Seq<char>, cl: Option<char>) -> Seq<char> {
    trim_end_cl(trim_start_cl(s, cl), cl)
}

fn class_match_exec(cl: Option<char>, c: char) -> (r: bool)
    ensures
        r == class_match(cl, c),
{
    match cl {
        None => space_char(c),
        Some(k) => c == k,
    }
}

/// Removes every leading and trailing character of the class from `s`.
pub fn trim_class(s: &str, cl: Option<char>) -> (r: String)
    ensures
        r@ == trim_cl(s@, cl),
    decreases s@.len(),
{
    let n = s.unicode_len();
    if n == 0 {
        return s.to_owned();
    }
    let first = s.get_char(0);
    let last = s.get_char(n - 1);
    if class_match_exec(cl, first) {
        let inner = s.substring_char(1, n);
        proof {
            assert(inner@ =~= s@.drop_first());
        }
        trim_class(inner, cl)
    } else if class_match_exec(cl, last) {
        let inner = s.substring_char(0, n - 1);
        proof {
            assert(inner@ =~= s@.drop_last());
            assert(trim_start_cl(s@, cl) == s@);
            if n == 1 {
                assert(false);
            }
            assert(inner@[0] == s@[0]);
            assert(trim_start_cl(inner@, cl) == inner@);
        }
        trim_class(inner, cl)
    } else {
        proof {
            assert(trim_start_cl(s@, cl) == s@);
            assert(trim_end_cl(s@, cl) == s@);
        }
        s.to_owned()
    }
}

/// The text with every trailing copy of the plain pattern `p` removed.
pub open spec fn strip_suffix_rep(s: Seq<char>, p: Seq<char>) -> Seq<char>
    decreases s.len(),
{
    if p.len() > 0 && s.len() >= p.len() && s.subrange(s.len() - p.len(), s.len() as int) == p {
        strip_suffix_rep(s.take(s.len() - p.len()), p)
    } else {
        s
    }
}

/// Removes every trailing copy of `p` from `s`.
pub fn strip_suffix_repeated(s: &str, p: &str) -> (r: String)
    ensures
        r@ == strip_suffix_rep(s@, p@),
    decreases s@.len(),
{
    let n = s.unicode_len();
    let m = p.unicode_len();
    if m > 0 && n >= m && seq_match_at(s, n - m, p) {
        let shorter = s.substring_char(0, n - m);
        proof {
            assert(shorter@ =~= s@.take(s@.len() - p@.len()));
        }
        strip_suffix_repeated(shorter, p)
    } else {
        proof {
            if m > 0 && n >= m {
                assert(s@.subrange(s@.len() - p@.len(), s@.len() as int) != p@);
            }
        }
        s.to_owned()
    }
}

pub open spec fn is_lower(c: char) -> bool {
    'a' <= c && c <= 'z'
}

/// Whether two characters are equal up to ASCII case, as
/// `char::eq_ignore_ascii_case` decides it.
pub open spec fn char_eq_ci(a: char, b: char) -> bool {
    a == b || (is_lower(a) && b as u32 + 32 == a as u32) || (is_lower(b) && a as u32 + 32 == b
        as u32)
}

/// Whether two texts are equal up to ASCII case, as
/// `str::eq_ignore_ascii_case` decides it.
pub open spec fn seq_eq_ci(a: Seq<char>, b: Seq<char>) -> bool {
    a.len() == b.len() && forall|i: int| 0 <= i < a.len() ==> char_eq_ci(a[i], b[i])
}

fn char_eq_ci_exec(a: char, b: char) -> (r: bool)
    ensures
        r == char_eq_ci(a, b),
{
    a == b || ('a' <= a && a <= 'z' && b as u32 + 32 == a as u32) || ('a' <= b && b <= 'z' && a
        as u32 + 32 == b as u32)
}

/// Compares two texts ignoring ASCII case.
pub fn eq_ignore_case(a: &str, b: &str) -> (r: bool)
    ensures
        r == seq_eq_ci(a@, b@),
{
    let n = a.unicode_len();
    if n != b.unicode_len() {
        return false;
    }
    let mut i: usize = 0;
    while i < n
        invariant
            n == a@.len() == b@.len(),
            0 <= i <= n,
            forall|k: int| 0 <= k < i ==> char_eq_ci(a@[k], b@[k]),
        decreases n - i,
    {
        if !char_eq_ci_exec(a.get_char(i), b.get_char(i)) {
            return false;
        }
        i = i + 1;
    }
    true
}

/// Whether `s` begins with `p` up to ASCII case.
pub fn starts_with_ci(s: &str, p: &str) -> (r: bool)
    ensures
        r == (s@.len() >= p@.len() && seq_eq_ci(s@.take(p@.len() as int), p@)),
{
    let n = s.unicode_len();
    let m = p.unicode_len();
    if m > n {
        return false;
    }
    let mut i: usize = 0;
    while i < m
        invariant
            n == s@.len(),
            m == p@.len(),
            m <= n,
            0 <= i <= m,
            forall|k: int| 0 <= k < i ==> char_eq_ci(s@.take(p@.len() as int)[k], p@[k]),
        decreases m - i,
    {
        if !char_eq_ci_exec(s.get_char(i), p.get_char(i)) {
            assert(!char_eq_ci(s@.take(p@.len() as int)[i as int], p@[i as int]));
            return false;
        }
        i = i + 1;
    }
    true
}

} // verus!
