//! Small verified string utilities shared by the rest of the crate:
//! decimal rendering, character-level comparison, substring search, and
//! the separator-based tokenizer used by the build-channel classifier.
use vstd::prelude::*;
use vstd::string::StrSliceExecFns;
use vstd::string::StringExecFns;

verus! {

/// Digit character for a value below ten.
pub open spec fn digit_char(d: int) -> char {
    if d == 0 {
        '0'
    } else if d == 1 {
        '1'
    } else if d == 2 {
        '2'
    } else if d == 3 {
        '3'
    } else if d == 4 {
        '4'
    } else if d == 5 {
        '5'
    } else if d == 6 {
        '6'
    } else if d == 7 {
        '7'
    } else if d == 8 {
        '8'
    } else {
        '9'
    }
}

/// Decimal rendering of a non-negative integer, most significant digit
/// first, with no leading zeros (`0` renders as `"0"`).
pub open spec fn dec_digits(n: int) -> Seq<char>
    decreases n,
{
    if n < 10 {
        seq![digit_char(n)]
    } else {
        dec_digits(n / 10).push(digit_char(n % 10))
    }
}

fn digit_str(d: u64) -> (s: &'static str)
    requires
        d < 10,
    ensures
        s@ =~= seq![digit_char(d as int)],
{
    proof {
        reveal_strlit("0");
        reveal_strlit("1");
        reveal_strlit("2");
        reveal_strlit("3");
        reveal_strlit("4");
        reveal_strlit("5");
        reveal_strlit("6");
        reveal_strlit("7");
        reveal_strlit("8");
        reveal_strlit("9");
    }
    match d {
        0 => "0",
        1 => "1",
        2 => "2",
        3 => "3",
        4 => "4",
        5 => "5",
        6 => "6",
        7 => "7",
        8 => "8",
        _ => "9",
    }
}

/// Render an unsigned integer in decimal.
pub fn u64_to_string(n: u64) -> (s: String)
    ensures
        s@ == dec_digits(n as int),
    decreases n,
{
    if n < 10 {
        let s = digit_str(n).to_owned();
        proof {
            assert(s@ =~= dec_digits(n as int));
        }
        s
    } else {
        let mut s = u64_to_string(n / 10);
        s.append(digit_str(n % 10));
        proof {
            assert(s@ =~= dec_digits(n as int));
        }
        s
    }
}

/// Decimal rendering padded with leading zeros to two characters, as
/// calendar fields are written (`7` renders as `"07"`).
pub open spec fn padded_dec2(n: int) -> Seq<char> {
    if n < 10 {
        seq!['0'] + dec_digits(n)
    } else {
        dec_digits(n)
    }
}

/// Decimal rendering padded with leading zeros to four characters.
pub open spec fn padded_dec4(n: int) -> Seq<char> {
    if n < 10 {
        seq!['0', '0', '0'] + dec_digits(n)
    } else if n < 100 {
        seq!['0', '0'] + dec_digits(n)
    } else if n < 1000 {
        seq!['0'] + dec_digits(n)
    } else {
        dec_digits(n)
    }
}

/// Render `n` zero-padded to two characters.
pub fn pad2(n: u64) -> (s: String)
    requires
        n < 100,
    ensures
        s@ == padded_dec2(n as int),
{
    proof {
        reveal_strlit("0");
    }
    if n < 10 {
        let mut s = "0".to_owned();
        s.append(digit_str(n));
        proof {
            assert(s@ =~= padded_dec2(n as int));
        }
        s
    } else {
        u64_to_string(n)
    }
}

/// Render `n` zero-padded to four characters.
pub fn pad4(n: u64) -> (s: String)
    requires
        n < 10000,
    ensures
        s@ == padded_dec4(n as int),
{
    proof {
        reveal_strlit("0");
    }
    if n >= 1000 {
        let s = u64_to_string(n);
        proof {
            assert(s@ =~= padded_dec4(n as int));
        }
        s
    } else {
        let mut s = "0".to_owned();
        if n >= 100 {
            s.append(u64_to_string(n).as_str());
        } else if n >= 10 {
            s.append("0");
            s.append(u64_to_string(n).as_str());
        } else {
            s.append("00");
            s.append(digit_str(n));
        }
        proof {
            reveal_strlit("00");
            assert(s@ =~= padded_dec4(n as int));
        }
        s
    }
}

/// Character-wise string equality.
pub fn str_eq(a: &str, b: &str) -> (r: bool)
    ensures
        r == (a@ == b@),
{
    let an = a.unicode_len();
    let bn = b.unicode_len();
    if an != bn {
        return false;
    }
    let mut i: usize = 0;
    while i < an
        invariant
            i <= an,
            an == a@.len(),
            an == b@.len(),
            forall|j: int| 0 <= j < i ==> a@[j] == b@[j],
        decreases an - i,
    {
        if a.get_char(i) != b.get_char(i) {
            return false;
        }
        i = i + 1;
    }
    proof {
        assert(a@ =~= b@);
    }
    true
}

/// Whether `p` is a prefix of `s`.
pub open spec fn is_prefix(p: Seq<char>, s: Seq<char>) -> bool {
    p.len() <= s.len() && s.take(p.len() as int) == p
}

/// Prefix test.
pub fn starts_with(s: &str, p: &str) -> (r: bool)
    ensures
        r == is_prefix(p@, s@),
{
    let sn = s.unicode_len();
    let pn = p.unicode_len();
    if pn > sn {
        assert(!is_prefix(p@, s@));
        return false;
    }
    let mut i: usize = 0;
    while i < pn
        invariant
            i <= pn <= sn,
            sn == s@.len(),
            pn == p@.len(),
            forall|j: int| 0 <= j < i ==> s@[j] == p@[j],
        decreases pn - i,
    {
        if s.get_char(i) != p.get_char(i) {
            assert(s@.take(pn as int)[i as int] != p@[i as int]);
            return false;
        }
        i = i + 1;
    }
    proof {
        assert(s@.take(pn as int) =~= p@);
    }
    true
}

/// Whether `needle` occurs as a contiguous run of characters in `hay`.
pub open spec fn contains_seq(hay: Seq<char>, needle: Seq<char>) -> bool {
    exists|i: int|
        0 <= i <= hay.len() - needle.len() && #[trigger] hay.subrange(i, i + needle.len())
            == needle
}

/// Substring search.
pub fn str_contains(hay: &str, needle: &str) -> (r: bool)
    ensures
        r == contains_seq(hay@, needle@),
{
    let hn = hay.unicode_len();
    let nn = needle.unicode_len();
    if nn > hn {
        return false;
    }
    if nn == 0 {
        proof {
            assert(hay@.subrange(0, 0 + needle@.len() as int) =~= needle@);
        }
        return true;
    }
    let mut i: usize = 0;
    while i <= hn - nn
        invariant
            0 < nn <= hn,
            hn == hay@.len(),
            nn == needle@.len(),
            i <= hn - nn + 1,
            forall|k: int| 0 <= k < i ==> #[trigger] hay@.subrange(k, k + nn) != needle@,
        decreases hn + 1 - nn - i,
    {
        let mut j: usize = 0;
        let mut matched = true;
        while j < nn
            invariant
                i + nn <= hn,
                hn == hay@.len(),
                nn == needle@.len(),
                j <= nn,
                matched || j == nn,
                matched ==> forall|t: int| 0 <= t < j ==> hay@[i + t] == needle@[t],
                !matched ==> exists|t: int| 0 <= t < nn && hay@[i + t] != needle@[t],
            decreases nn - j,
        {
            if hay.get_char(i + j) != needle.get_char(j) {
                assert(hay@[i + j] != needle@[j as int]);
                matched = false;
                j = nn;
            } else {
                j = j + 1;
            }
        }
        if matched {
            proof {
                assert(hay@.subrange(i as int, i + nn) =~= needle@);
            }
            return true;
        }
        proof {
            let t = choose|t: int| 0 <= t < nn && hay@[i + t] != needle@[t];
            assert(hay@.subrange(i as int, i + nn)[t] != needle@[t]);
        }
        i = i + 1;
    }
    false
}

/// The separator characters of a toolchain descriptor: space and the two
/// parenthesis characters.
pub open spec fn is_sep(c: char) -> bool {
    c == ' ' || c == '(' || c == ')'
}

/// Tokens of `s` read left to right with `cur` the token under
/// construction: maximal non-empty runs of non-separator characters.
pub open spec fn tokens_acc(s: Seq<char>, cur: Seq<char>) -> Seq<Seq<char>>
    decreases s.len(),
{
    if s.len() == 0 {
        if cur.len() == 0 {
            Seq::empty()
        } else {
            seq![cur]
        }
    } else if is_sep(s[0]) {
        if cur.len() == 0 {
            tokens_acc(s.drop_first(), Seq::empty())
        } else {
            seq![cur] + tokens_acc(s.drop_first(), Seq::empty())
        }
    } else {
        tokens_acc(s.drop_first(), cur.push(s[0]))
    }
}

/// The non-empty tokens of `s`, split at separators.
pub open spec fn tokens_of(s: Seq<char>) -> Seq<Seq<char>> {
    tokens_acc(s, Seq::empty())
}

fn is_sep_char(c: char) -> (r: bool)
    ensures
        r == is_sep(c),
{
    c == ' ' || c == '(' || c == ')'
}

/// Split `s` at spaces and parentheses, discarding empty tokens.
pub fn split_tokens(s: &str) -> (toks: Vec<String>)
    ensures
        toks@.map_values(|t: String| t@) == tokens_of(s@),
{
    let n = s.unicode_len();
    let mut toks: Vec<String> = Vec::new();
    let mut i: usize = 0;
    let mut start: usize = 0;
    proof {
        assert(s@.skip(0) =~= s@);
        assert(s@.subrange(0, 0) =~= Seq::<char>::empty());
        assert(toks@.map_values(|t: String| t@) + tokens_acc(s@, Seq::empty()) =~= tokens_of(s@));
    }
    while i < n
        invariant
            start <= i <= n,
            n == s@.len(),
            forall|j: int| start <= j < i ==> !is_sep(s@[j]),
            tokens_of(s@) == toks@.map_values(|t: String| t@) + tokens_acc(
                s@.skip(i as int),
                s@.subrange(start as int, i as int),
            ),
        decreases n - i,
    {
        proof {
            assert(s@.skip(i as int)[0] == s@[i as int]);
            assert(s@.skip(i as int).drop_first() =~= s@.skip(i + 1));
        }
        if is_sep_char(s.get_char(i)) {
            if i > start {
                let tok = s.substring_char(start, i).to_owned();
                proof {
                    assert(tokens_acc(s@.skip(i as int), s@.subrange(start as int, i as int))
                        =~= seq![s@.subrange(start as int, i as int)] + tokens_acc(
                        s@.skip(i + 1),
                        Seq::empty(),
                    ));
                }
                toks.push(tok);
                proof {
                    assert(toks@.map_values(|t: String| t@) =~= toks@.map_values(
                        |t: String| t@,
                    ).subrange(0, toks@.len() - 1) + seq![s@.subrange(start as int, i as int)]);
                }
            } else {
                assert(s@.subrange(start as int, i as int) =~= Seq::<char>::empty());
            }
            i = i + 1;
            start = i;
            assert(s@.subrange(start as int, i as int) =~= Seq::<char>::empty());
        } else {
            proof {
                assert(s@.subrange(start as int, i as int).push(s@[i as int]) =~= s@.subrange(
                    start as int,
                    i + 1,
                ));
            }
            i = i + 1;
        }
    }
    proof {
        assert(s@.skip(n as int) =~= Seq::<char>::empty());
    }
    if i > start {
        let tok = s.substring_char(start, i).to_owned();
        toks.push(tok);
        proof {
            assert(toks@.map_values(|t: String| t@) =~= toks@.map_values(|t: String| t@).subrange(
                0,
                toks@.len() - 1,
            ) + seq![s@.subrange(start as int, i as int)]);
            assert(toks@.map_values(|t: String| t@) =~= tokens_of(s@));
        }
    } else {
        proof {
            assert(s@.subrange(start as int, i as int) =~= Seq::<char>::empty());
            assert(toks@.map_values(|t: String| t@) =~= tokens_of(s@));
        }
    }
    toks
}

} // verus!
