//! Text building blocks: decimal numerals and placeholder substitution.

use vstd::prelude::*;
use vstd::string::{StrSliceExecFns, StringExecFns};

verus! {

/// The character of a decimal digit.
pub open spec fn digit(d: nat) -> char {
    (48 + d) as char
}

/// The decimal numeral of `n`, without leading zeros.
pub open spec fn decimal(n: nat) -> Seq<char>
    decreases n,
{
    if n < 10 {
        seq![digit(n)]
    } else {
        decimal(n / 10).push(digit(n % 10))
    }
}

/// One digit as text.
fn digit_text(d: u32) -> (text: &'static str)
    requires
        d < 10,
    ensures
        text@ == seq![digit(d as nat)],
{
    proof {
        reveal_strlit("0");
        reveal_strlit("1");
        reveal_strlit("2");
        reveal_strlit("3");
        reveal_strlit("4");
        reveal_strlit("5");
        reveal_strlit("6");
        reveal_strlit("7");
        reveal_strlit("8");
        reveal_strlit("9");
    }
    let text: &'static str = match d {
        0 => "0",
        1 => "1",
        2 => "2",
        3 => "3",
        4 => "4",
        5 => "5",
        6 => "6",
        7 => "7",
        8 => "8",
        _ => "9",
    };
    assert(text@ =~= seq![digit(d as nat)]);
    text
}

/// Writes `n` in decimal.
pub fn to_decimal(n: u32) -> (text: String)
    ensures
        text@ == decimal(n as nat),
    decreases n,
{
    if n < 10 {
        digit_text(n).to_owned()
    } else {
        let mut text: String = to_decimal(n / 10);
        text.append(digit_text(n % 10));
        assert(text@ =~= decimal(n as nat));
        text
    }
}

/// `pat` stands in `s` at position `i`.
pub open spec fn stands_at(s: Seq<char>, pat: Seq<char>, i: int) -> bool {
    0 <= i && i + pat.len() <= s.len() && s.subrange(i, i + pat.len()) == pat
}

/// `s` with every occurrence of `pat`, taken from the left and not
/// overlapping, replaced by `with`.
pub open spec fn replaced(s: Seq<char>, pat: Seq<char>, with: Seq<char>) -> Seq<char>
    decreases s.len(),
{
    if pat.len() == 0 || s.len() == 0 {
        s
    } else if stands_at(s, pat, 0) {
        with + replaced(s.skip(pat.len() as int), pat, with)
    } else {
        seq![s[0]] + replaced(s.skip(1), pat, with)
    }
}

/// Whether `pat` stands in `s` at position `i`.
fn text_at(s: &str, pat: &str, i: usize, s_len: usize, pat_len: usize) -> (at: bool)
    requires
        s_len == s@.len(),
        pat_len == pat@.len(),
        i <= s_len,
    ensures
        at == stands_at(s@, pat@, i as int),
{
    if s_len - i < pat_len {
        return false;
    }
    let mut k: usize = 0;
    while k < pat_len
        invariant
            s_len == s@.len(),
            pat_len == pat@.len(),
            i <= s_len,
            k <= pat_len <= s_len - i,
            forall|j: int| 0 <= j < k ==> s@[i + j] == pat@[j],
        decreases pat_len - k,
    {
        if s.get_char(i + k) != pat.get_char(k) {
            assert(s@.subrange(i as int, i + pat@.len())[k as int] != pat@[k as int]);
            return false;
        }
        k += 1;
    }
    assert(s@.subrange(i as int, i + pat@.len()) =~= pat@);
    true
}

/// Replaces every occurrence of `pat` in `s` by `with`.
pub fn replace(s: &str, pat: &str, with: &str) -> (text: String)
    requires
        pat@.len() > 0,
    ensures
        text@ == replaced(s@, pat@, with@),
{
    let s_len: usize = s.unicode_len();
    let pat_len: usize = pat.unicode_len();
    let mut text: String = String::new();
    let mut i: usize = 0;
    assert(s@.skip(0) =~= s@);
    assert(text@ + replaced(s@, pat@, with@) =~= replaced(s@, pat@, with@));
    while i < s_len
        invariant
            s_len == s@.len(),
            pat_len == pat@.len(),
            pat_len > 0,
            i <= s_len,
            text@ + replaced(s@.skip(i as int), pat@, with@) == replaced(s@, pat@, with@),
        decreases s_len - i,
    {
        let ghost rest = s@.skip(i as int);
        let ghost done = text@;
        if text_at(s, pat, i, s_len, pat_len) {
            assert(rest.subrange(0, pat@.len() as int) =~= s@.subrange(i as int, i + pat@.len()));
            assert(rest.skip(pat_len as int) =~= s@.skip(i + pat_len));
            text.append(with);
            i += pat_len;
            assert(text@ + replaced(s@.skip(i as int), pat@, with@) =~= done + (with@ + replaced(
                s@.skip(i as int),
                pat@,
                with@,
            )));
        } else {
            assert(!stands_at(rest, pat@, 0)) by {
                if stands_at(rest, pat@, 0) {
                    assert(rest.subrange(0, pat@.len() as int) =~= s@.subrange(
                        i as int,
                        i + pat@.len(),
                    ));
                }
            }
            assert(rest.skip(1) =~= s@.skip(i + 1));
            text.append(s.substring_char(i, i + 1));
            assert(s@.subrange(i as int, i + 1) =~= seq![rest[0]]);
            i += 1;
            assert(text@ + replaced(s@.skip(i as int), pat@, with@) =~= done + (seq![rest[0]]
                + replaced(s@.skip(i as int), pat@, with@)));
        }
    }
    assert(s@.skip(i as int) =~= Seq::empty());
    assert(text@ + Seq::<char>::empty() =~= text@);
    text
}

/// A numeral is made of digits.
pub proof fn lemma_decimal_digits(n: nat)
    ensures
        decimal(n).len() > 0,
        forall|i: int| 0 <= i < decimal(n).len() ==> '0' <= #[trigger] decimal(n)[i] <= '9',
    decreases n,
{
    if n >= 10 {
        lemma_decimal_digits(n / 10);
    }
}

/// The number that a text of digits stands for, each digit worth ten times the
/// next.
pub open spec fn value_of(text: Seq<char>) -> int
    decreases text.len(),
{
    if text.len() == 0 {
        0
    } else {
        10 * value_of(text.drop_last()) + (text.last() as int - '0' as int)
    }
}

/// A numeral reads back as its number. It is made of digits alone, at least one
/// of them, and a zero in front is the whole of it.
pub proof fn law_decimal_reads_back(n: nat)
    ensures
        value_of(decimal(n)) == n,
        decimal(n).len() > 0,
        forall|i: int| 0 <= i < decimal(n).len() ==> '0' <= #[trigger] decimal(n)[i] <= '9',
        decimal(n)[0] == '0' ==> decimal(n).len() == 1,
    decreases n,
{
    lemma_decimal_digits(n);
    let text = decimal(n);
    if n >= 10 {
        law_decimal_reads_back(n / 10);
        assert(text.drop_last() =~= decimal(n / 10));
        assert(text[0] == decimal(n / 10)[0]);
        if text[0] == '0' {
            assert(decimal(n / 10).drop_last() =~= Seq::empty());
            assert(value_of(decimal(n / 10)) == 0) by {
                reveal_with_fuel(value_of, 2);
            }
        }
    } else {
        assert(text.drop_last() =~= Seq::empty());
        reveal_with_fuel(value_of, 2);
    }
}

/// Different numbers have different numerals.
pub proof fn law_decimal_injective(a: nat, b: nat)
    requires
        decimal(a) == decimal(b),
    ensures
        a == b,
    decreases a,
{
    lemma_decimal_digits(a / 10);
    lemma_decimal_digits(b / 10);
    assert(decimal(a).last() == digit(a % 10));
    assert(decimal(b).last() == digit(b % 10));
    assert(a % 10 == b % 10);
    if a >= 10 && b >= 10 {
        assert(decimal(a).drop_last() =~= decimal(a / 10));
        assert(decimal(b).drop_last() =~= decimal(b / 10));
        law_decimal_injective(a / 10, b / 10);
    }
}

/// A prefix without the first character of `pat` is left as it is.
pub proof fn lemma_replaced_after(
    prefix: Seq<char>,
    rest: Seq<char>,
    pat: Seq<char>,
    with: Seq<char>,
)
    requires
        pat.len() > 0,
        forall|i: int| 0 <= i < prefix.len() ==> prefix[i] != pat[0],
    ensures
        replaced(prefix + rest, pat, with) == prefix + replaced(rest, pat, with),
    decreases prefix.len(),
{
    let s = prefix + rest;
    if prefix.len() == 0 {
        assert(s =~= rest);
        assert(prefix + replaced(rest, pat, with) =~= replaced(rest, pat, with));
    } else {
        assert(!stands_at(s, pat, 0)) by {
            if stands_at(s, pat, 0) {
                assert(s.subrange(0, pat.len() as int)[0] == s[0]);
            }
        }
        assert(s.skip(1) =~= prefix.skip(1) + rest);
        lemma_replaced_after(prefix.skip(1), rest, pat, with);
        assert(seq![s[0]] + (prefix.skip(1) + replaced(rest, pat, with)) =~= prefix + replaced(
            rest,
            pat,
            with,
        ));
    }
}

/// A text stands in another where each of its characters is found there in
/// turn.
pub proof fn law_stands_where_it_is_read(s: Seq<char>, pat: Seq<char>, i: int)
    ensures
        stands_at(s, pat, i) <==> 0 <= i && i + pat.len() <= s.len() && forall|j: int|
            0 <= j < pat.len() ==> s[i + j] == #[trigger] pat[j],
{
    if 0 <= i && i + pat.len() <= s.len() {
        let part = s.subrange(i, i + pat.len());
        if forall|j: int| 0 <= j < pat.len() ==> s[i + j] == #[trigger] pat[j] {
            assert(part =~= pat);
        }
        if part == pat {
            assert forall|j: int| 0 <= j < pat.len() implies s[i + j] == #[trigger] pat[j] by {
                assert(part[j] == s[i + j]);
            }
        }
    }
}

/// Text that holds no occurrence is left as it is. Else what stands before the
/// first occurrence is left as it is, that occurrence is replaced, and the same
/// holds of the text after it.
pub proof fn law_replaces_each_occurrence(
    s: Seq<char>,
    pat: Seq<char>,
    with: Seq<char>,
    first: int,
)
    requires
        pat.len() > 0,
        0 <= first <= s.len(),
        forall|i: int| 0 <= i < first ==> !#[trigger] stands_at(s, pat, i),
    ensures
        first == s.len() ==> replaced(s, pat, with) == s,
        stands_at(s, pat, first) ==> replaced(s, pat, with) == s.take(first) + with + replaced(
            s.skip(first + pat.len()),
            pat,
            with,
        ),
    decreases first,
{
    if first == 0 {
        if stands_at(s, pat, 0) {
            assert(s.take(0) + with =~= with);
        }
    } else {
        let rest = s.skip(1);
        assert(!stands_at(s, pat, 0));
        assert forall|i: int| 0 <= i < first - 1 implies !#[trigger] stands_at(rest, pat, i) by {
            assert(!stands_at(s, pat, i + 1));
            law_stands_where_it_is_read(s, pat, i + 1);
            law_stands_where_it_is_read(rest, pat, i);
            if stands_at(rest, pat, i) {
                assert forall|j: int| 0 <= j < pat.len() implies s[i + 1 + j] == #[trigger] pat[j] by {
                    assert(rest[i + j] == s[i + 1 + j]);
                }
            }
        }
        law_replaces_each_occurrence(rest, pat, with, first - 1);
        assert(seq![s[0]] + rest =~= s);
        if stands_at(s, pat, first) {
            law_stands_where_it_is_read(s, pat, first);
            law_stands_where_it_is_read(rest, pat, first - 1);
            assert(stands_at(rest, pat, first - 1)) by {
                assert forall|j: int| 0 <= j < pat.len() implies rest[first - 1 + j]
                    == #[trigger] pat[j] by {
                    assert(rest[first - 1 + j] == s[first + j]);
                }
            }
            assert(rest.skip(first - 1 + pat.len()) =~= s.skip(first + pat.len()));
            let tail = replaced(s.skip(first + pat.len()), pat, with);
            assert(seq![s[0]] + (rest.take(first - 1) + with + tail) =~= s.take(first) + with
                + tail);
        }
    }
}

/// An occurrence of `pat` in front is replaced.
pub proof fn lemma_replaced_at(rest: Seq<char>, pat: Seq<char>, with: Seq<char>)
    requires
        pat.len() > 0,
    ensures
        replaced(pat + rest, pat, with) == with + replaced(rest, pat, with),
{
    let s = pat + rest;
    assert(s.subrange(0, pat.len() as int) =~= pat);
    assert(s.skip(pat.len() as int) =~= rest);
}

} // verus!
