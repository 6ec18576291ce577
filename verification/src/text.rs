//! Text primitives: the characters of a string, equality, trimming and
//! comma-separated tokens.

use vstd::prelude::*;
use vstd::seq_lib::seq_to_set_is_finite;
use vstd::set_lib::lemma_len_intersect;

verus! {

/// Whether `c` is white space: one of the twenty-five characters that carry
/// the Unicode property `White_Space`.
pub open spec fn white_space(c: char) -> bool {
    let code = c as u32;
    ||| 0x09 <= code <= 0x0D
    ||| code == 0x20
    ||| code == 0x85
    ||| code == 0xA0
    ||| code == 0x1680
    ||| 0x2000 <= code <= 0x200A
    ||| code == 0x2028
    ||| code == 0x2029
    ||| code == 0x202F
    ||| code == 0x205F
    ||| code == 0x3000
}

/// Calls `char::is_whitespace`, which the standard library documents as
/// true exactly of the characters with the Unicode property `White_Space`.
/// The contract lists them.
#[verifier::external_body]
fn is_whitespace(c: char) -> (r: bool)
    ensures
        r == white_space(c),
{
    c.is_whitespace()
}

/// `s` without its leading white space.
pub open spec fn trim_start(s: Seq<char>) -> Seq<char>
    decreases s.len(),
{
    if s.len() > 0 && white_space(s[0]) {
        trim_start(s.drop_first())
    } else {
        s
    }
}

/// `s` without its trailing white space.
pub open spec fn trim_end(s: Seq<char>) -> Seq<char>
    decreases s.len(),
{
    if s.len() > 0 && white_space(s.last()) {
        trim_end(s.drop_last())
    } else {
        s
    }
}

/// `s` without leading and trailing white space.
pub open spec fn trimmed(s: Seq<char>) -> Seq<char> {
    trim_end(trim_start(s))
}

/// The pieces of `s` between its commas, in order. A string without a comma is
/// one piece; two adjacent commas enclose an empty piece.
pub open spec fn split_commas(s: Seq<char>) -> Seq<Seq<char>>
    decreases s.len(),
{
    if s.len() == 0 {
        seq![Seq::<char>::empty()]
    } else {
        let before = split_commas(s.drop_last());
        if s.last() == ',' {
            before.push(Seq::<char>::empty())
        } else {
            before.drop_last().push(before.last().push(s.last()))
        }
    }
}

/// Every piece of `pieces`, trimmed.
pub open spec fn trim_each(pieces: Seq<Seq<char>>) -> Seq<Seq<char>> {
    Seq::new(pieces.len(), |k: int| trimmed(pieces[k]))
}

/// The trimmed comma-separated tokens of `s`, in order.
pub open spec fn tokens(s: Seq<char>) -> Seq<Seq<char>> {
    trim_each(split_commas(s))
}

/// The set of trimmed comma-separated tokens of `s`.
pub open spec fn token_set(s: Seq<char>) -> Set<Seq<char>> {
    tokens(s).to_set()
}

/// The character sequences held by a list of tokens.
pub open spec fn views(list: Seq<Vec<char>>) -> Seq<Seq<char>> {
    Seq::new(list.len(), |k: int| list[k]@)
}

/// Splitting always yields at least one piece.
pub proof fn lemma_split_nonempty(s: Seq<char>)
    ensures
        split_commas(s).len() >= 1,
    decreases s.len(),
{
    if s.len() > 0 {
        lemma_split_nonempty(s.drop_last());
    }
}

/// The pieces put together again, with a comma between each two.
pub open spec fn joined(pieces: Seq<Seq<char>>) -> Seq<char>
    decreases pieces.len(),
{
    if pieces.len() == 0 {
        Seq::empty()
    } else if pieces.len() == 1 {
        pieces[0]
    } else {
        joined(pieces.drop_last()).push(',') + pieces.last()
    }
}

/// Splitting loses nothing and cuts at every comma: the pieces joined by
/// commas are the string again, and no piece holds a comma.
pub proof fn lemma_split_is_exact(s: Seq<char>)
    ensures
        joined(split_commas(s)) == s,
        forall|p: int, k: int|
            0 <= p < split_commas(s).len() && 0 <= k < split_commas(s)[p].len() ==> (
            #[trigger] split_commas(s)[p][k]) != ',',
    decreases s.len(),
{
    let pieces = split_commas(s);
    if s.len() > 0 {
        let before = split_commas(s.drop_last());
        lemma_split_is_exact(s.drop_last());
        lemma_split_nonempty(s.drop_last());
        assert(s =~= s.drop_last().push(s.last()));
        if s.last() == ',' {
            assert(pieces.drop_last() =~= before);
            assert(joined(pieces) =~= s);
        } else {
            assert(pieces.drop_last() =~= before.drop_last());
            if before.len() == 1 {
                assert(joined(pieces) =~= s);
            } else {
                assert(joined(pieces) =~= joined(before).push(s.last()));
            }
            assert forall|p: int, k: int|
                0 <= p < pieces.len() && 0 <= k < pieces[p].len() implies (
            #[trigger] pieces[p][k]) != ',' by {
                if p < pieces.len() - 1 {
                    assert(pieces[p] == before[p]);
                } else if k < before.last().len() {
                    assert(pieces[p][k] == before[p][k]);
                }
            }
        }
    } else {
        assert(joined(pieces) =~= s);
    }
}

/// The characters of `s`, in order.
pub fn chars_of(s: &str) -> (out: Vec<char>)
    ensures
        out@ == s@,
{
    let mut out: Vec<char> = Vec::new();
    for c in it: s.chars()
        invariant
            it.seq() == s@,
            out@ == s@.take(it.index() as int),
    {
        out.push(c);
    }
    out
}

/// Whether two character lists are equal.
pub fn same_chars(a: &Vec<char>, b: &Vec<char>) -> (r: bool)
    ensures
        r == (a@ == b@),
{
    if a.len() != b.len() {
        return false;
    }
    let mut i: usize = 0;
    while i < a.len()
        invariant
            i <= a.len(),
            a.len() == b.len(),
            forall|k: int| 0 <= k < i ==> a@[k] == b@[k],
        decreases a.len() - i,
    {
        if a[i] != b[i] {
            return false;
        }
        i += 1;
    }
    assert(a@ =~= b@);
    true
}

/// Whether two strings hold the same characters.
pub fn str_equal(a: &str, b: &str) -> (r: bool)
    ensures
        r == (a@ == b@),
{
    let left: String = a.to_owned();
    let right: String = b.to_owned();
    left == right
}

/// The trimmed form of the characters of `s` from `lo` up to `hi`.
pub fn trim_range(s: &Vec<char>, lo: usize, hi: usize) -> (out: Vec<char>)
    requires
        lo <= hi <= s.len(),
    ensures
        out@ == trimmed(s@.subrange(lo as int, hi as int)),
{
    let mut i: usize = lo;
    while i < hi && is_whitespace(s[i])
        invariant
            lo <= i <= hi <= s.len(),
            trim_start(s@.subrange(lo as int, hi as int)) == trim_start(
                s@.subrange(i as int, hi as int),
            ),
        decreases hi - i,
    {
        assert(s@.subrange(i as int, hi as int).drop_first() =~= s@.subrange(
            i as int + 1,
            hi as int,
        ));
        i += 1;
    }
    assert(trim_start(s@.subrange(lo as int, hi as int)) == s@.subrange(i as int, hi as int));
    let mut j: usize = hi;
    while j > i && is_whitespace(s[j - 1])
        invariant
            i <= j <= hi <= s.len(),
            trim_end(s@.subrange(i as int, hi as int)) == trim_end(s@.subrange(i as int, j as int)),
        decreases j - i,
    {
        assert(s@.subrange(i as int, j as int).drop_last() =~= s@.subrange(
            i as int,
            j as int - 1,
        ));
        j -= 1;
    }
    assert(trim_end(s@.subrange(i as int, hi as int)) == s@.subrange(i as int, j as int));
    let mut out: Vec<char> = Vec::new();
    let mut k: usize = i;
    while k < j
        invariant
            i <= k <= j <= s.len(),
            out@ == s@.subrange(i as int, k as int),
        decreases j - k,
    {
        out.push(s[k]);
        assert(out@ =~= s@.subrange(i as int, k as int + 1));
        k += 1;
    }
    out
}

/// Splits `s` on commas and trims each piece.
pub fn split_tokens(s: &str) -> (out: Vec<Vec<char>>)
    ensures
        views(out@) == tokens(s@),
        out.len() >= 1,
{
    let chars = chars_of(s);
    let mut out: Vec<Vec<char>> = Vec::new();
    let mut start: usize = 0;
    let mut i: usize = 0;
    while i < chars.len()
        invariant
            start <= i <= chars.len(),
            split_commas(chars@.take(i as int)).len() == out.len() + 1,
            split_commas(chars@.take(i as int)).last() == chars@.subrange(start as int, i as int),
            views(out@) == trim_each(split_commas(chars@.take(i as int)).drop_last()),
        decreases chars.len() - i,
    {
        let ghost before = split_commas(chars@.take(i as int));
        let ghost now = split_commas(chars@.take(i as int + 1));
        assert(chars@.take(i as int + 1).drop_last() =~= chars@.take(i as int));
        if chars[i] == ',' {
            let token = trim_range(&chars, start, i);
            let ghost old_out = out@;
            out.push(token);
            start = i + 1;
            assert(now == before.push(Seq::<char>::empty()));
            assert(now.drop_last() =~= before);
            assert(chars@.subrange(start as int, i as int + 1) =~= Seq::<char>::empty());
            assert(views(out@) =~= trim_each(before)) by {
                assert forall|k: int| 0 <= k < out.len() implies views(out@)[k] == trim_each(
                    before,
                )[k] by {
                    if k < out.len() - 1 {
                        assert(views(out@)[k] == views(old_out)[k]);
                        assert(trim_each(before.drop_last())[k] == trimmed(before[k]));
                    }
                }
            }
        } else {
            assert(now == before.drop_last().push(before.last().push(chars@[i as int])));
            assert(now.drop_last() =~= before.drop_last());
            assert(chars@.subrange(start as int, i as int + 1) =~= chars@.subrange(
                start as int,
                i as int,
            ).push(chars@[i as int]));
        }
        i += 1;
    }
    assert(chars@.take(i as int) =~= chars@);
    let ghost all = split_commas(chars@);
    let token = trim_range(&chars, start, i);
    let ghost old_out = out@;
    out.push(token);
    assert(views(out@) =~= trim_each(all)) by {
        assert forall|k: int| 0 <= k < out.len() implies views(out@)[k] == trim_each(all)[k] by {
            if k < out.len() - 1 {
                assert(views(out@)[k] == views(old_out)[k]);
                assert(trim_each(all.drop_last())[k] == trimmed(all[k]));
            }
        }
    }
    out
}

/// Whether one of the first `end` tokens of `list` holds the characters of `t`.
pub fn occurs_before(list: &Vec<Vec<char>>, end: usize, t: &Vec<char>) -> (r: bool)
    requires
        end <= list.len(),
    ensures
        r == views(list@).take(end as int).contains(t@),
{
    let mut i: usize = 0;
    while i < end
        invariant
            i <= end <= list.len(),
            forall|k: int| 0 <= k < i ==> views(list@)[k] != t@,
        decreases end - i,
    {
        if same_chars(&list[i], t) {
            assert(views(list@).take(end as int)[i as int] == t@);
            return true;
        }
        i += 1;
    }
    false
}

/// Whether `list` holds a token with the characters of `t`.
pub fn contains_token(list: &Vec<Vec<char>>, t: &Vec<char>) -> (r: bool)
    ensures
        r == views(list@).to_set().contains(t@),
{
    assert(views(list@).take(list.len() as int) =~= views(list@));
    occurs_before(list, list.len(), t)
}

/// The number of different tokens in `list`.
pub fn count_distinct(list: &Vec<Vec<char>>) -> (n: usize)
    ensures
        n == views(list@).to_set().len(),
{
    let mut n: usize = 0;
    let mut i: usize = 0;
    assert(views(list@).take(0).to_set() =~= Set::<Seq<char>>::empty());
    while i < list.len()
        invariant
            i <= list.len(),
            n <= i,
            n == views(list@).take(i as int).to_set().len(),
        decreases list.len() - i,
    {
        let ghost seen = views(list@).take(i as int);
        let repeated = occurs_before(list, i, &list[i]);
        proof {
            assert(views(list@).take(i as int + 1) =~= seen.push(list@[i as int]@));
            seen.lemma_push_to_set_commute(list@[i as int]@);
            seq_to_set_is_finite(seen);
        }
        if !repeated {
            n += 1;
        }
        i += 1;
    }
    assert(views(list@).take(i as int) =~= views(list@));
    n
}

/// The number of different tokens that occur in both `a` and `b`.
pub fn count_common(a: &Vec<Vec<char>>, b: &Vec<Vec<char>>) -> (n: usize)
    ensures
        n == views(a@).to_set().intersect(views(b@).to_set()).len(),
{
    let mut n: usize = 0;
    let mut i: usize = 0;
    assert(views(a@).take(0).to_set().intersect(views(b@).to_set()) =~= Set::<Seq<char>>::empty());
    while i < a.len()
        invariant
            i <= a.len(),
            n <= i,
            n == views(a@).take(i as int).to_set().intersect(views(b@).to_set()).len(),
        decreases a.len() - i,
    {
        let ghost seen = views(a@).take(i as int);
        let ghost other = views(b@).to_set();
        let ghost t = a@[i as int]@;
        let repeated = occurs_before(a, i, &a[i]);
        let shared = contains_token(b, &a[i]);
        proof {
            assert(views(a@).take(i as int + 1) =~= seen.push(t));
            seen.lemma_push_to_set_commute(t);
            seq_to_set_is_finite(seen);
            lemma_len_intersect(seen.to_set(), other);
            if repeated {
                assert(seen.to_set().insert(t) =~= seen.to_set());
            } else if shared {
                assert(seen.to_set().insert(t).intersect(other) =~= seen.to_set().intersect(
                    other,
                ).insert(t));
            } else {
                assert(seen.to_set().insert(t).intersect(other) =~= seen.to_set().intersect(
                    other,
                ));
            }
        }
        if !repeated && shared {
            n += 1;
        }
        i += 1;
    }
    assert(views(a@).take(i as int) =~= views(a@));
    n
}

/// Whether `c` is one of the ten decimal digits.
pub open spec fn is_digit(c: char) -> bool {
    '0' <= c <= '9'
}

/// Whether `s` consists of decimal digits only.
pub open spec fn all_digits(s: Seq<char>) -> bool {
    forall|k: int| 0 <= k < s.len() ==> is_digit(#[trigger] s[k])
}

/// The number that the decimal digits `s` write.
pub open spec fn decimal_value(s: Seq<char>) -> nat
    decreases s.len(),
{
    if s.len() == 0 {
        0
    } else {
        (decimal_value(s.drop_last()) * 10 + (s.last() as int - '0' as int)) as nat
    }
}

/// Whether `s` writes a number that fits in 32 bits: one or more decimal
/// digits and nothing else.
pub open spec fn is_number(s: Seq<char>) -> bool {
    s.len() > 0 && all_digits(s) && decimal_value(s) <= u32::MAX
}

/// Digits that write a number beyond 32 bits keep doing so when more digits
/// follow, and the value of a prefix never exceeds the value of the whole.
proof fn lemma_decimal_value_grows(s: Seq<char>, k: int)
    requires
        0 <= k <= s.len(),
        all_digits(s),
    ensures
        decimal_value(s.take(k)) <= decimal_value(s),
    decreases s.len() - k,
{
    if k < s.len() {
        assert(s.take(k + 1).drop_last() =~= s.take(k));
        assert(is_digit(s[k]));
        lemma_decimal_value_grows(s, k + 1);
    } else {
        assert(s.take(k) =~= s);
    }
}

/// The number that the characters of `s` from `lo` up to `hi` write, if they
/// write one.
pub fn parse_number(s: &Vec<char>, lo: usize, hi: usize) -> (number: Option<u32>)
    requires
        lo <= hi <= s.len(),
    ensures
        number is Some <==> is_number(s@.subrange(lo as int, hi as int)),
        number is Some ==> number->0 == decimal_value(s@.subrange(lo as int, hi as int)),
{
    let ghost digits = s@.subrange(lo as int, hi as int);
    if lo == hi {
        return None;
    }
    let mut value: u64 = 0;
    let mut i: usize = lo;
    assert(digits.take(0) =~= Seq::<char>::empty());
    while i < hi
        invariant
            lo <= i <= hi <= s.len(),
            lo < hi,
            digits == s@.subrange(lo as int, hi as int),
            all_digits(digits.take(i - lo)),
            value == decimal_value(digits.take(i - lo)),
            value <= u32::MAX,
        decreases hi - i,
    {
        let c = s[i];
        assert(digits[i - lo] == c);
        assert(digits.take(i - lo + 1).drop_last() =~= digits.take(i - lo));
        if c < '0' || c > '9' {
            assert(!is_digit(digits[i - lo]));
            return None;
        }
        assert forall|k: int| 0 <= k < i - lo + 1 implies is_digit(
            #[trigger] digits.take(i - lo + 1)[k],
        ) by {
            if k < i - lo {
                assert(digits.take(i - lo)[k] == digits[k]);
            }
        }
        let digit: u64 = (c as u32 - '0' as u32) as u64;
        value = value * 10 + digit;
        if value > u32::MAX as u64 {
            proof {
                if all_digits(digits) {
                    lemma_decimal_value_grows(digits, i - lo + 1);
                }
            }
            return None;
        }
        i += 1;
    }
    assert(digits.take(i - lo) =~= digits);
    Some(value as u32)
}

} // verus!
