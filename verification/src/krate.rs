//! Package-name handling at the request boundary. A namespaced name
//! such as `foo/bar` contains a separator that cannot travel in a path
//! segment or a file name, so it is carried in a file-safe form with
//! each `/` replaced by `~` (a character never part of a package name),
//! and decoded back when a request arrives.
use vstd::prelude::*;
use vstd::string::StrSliceExecFns;
use vstd::string::StringExecFns;

verus! {

/// The file-safe image of a name: every `/` becomes `~`.
pub open spec fn file_safe_repr(s: Seq<char>) -> Seq<char> {
    Seq::new(
        s.len(),
        |i: int|
            if s[i] == '/' {
                '~'
            } else {
                s[i]
            },
    )
}

/// The decoded image of a file-safe name: every `~` becomes `/`.
pub open spec fn decoded_repr(s: Seq<char>) -> Seq<char> {
    Seq::new(
        s.len(),
        |i: int|
            if s[i] == '~' {
                '/'
            } else {
                s[i]
            },
    )
}

fn replace_char(s: &str, from: char, to_str: &str, ghost_to: Ghost<char>) -> (r: String)
    requires
        to_str@ =~= seq![ghost_to@],
    ensures
        r@ == Seq::new(
            s@.len(),
            |i: int|
                if s@[i] == from {
                    ghost_to@
                } else {
                    s@[i]
                },
        ),
{
    let ghost target = Seq::new(
        s@.len(),
        |i: int|
            if s@[i] == from {
                ghost_to@
            } else {
                s@[i]
            },
    );
    let n = s.unicode_len();
    let mut r = String::new();
    let mut i: usize = 0;
    let mut start: usize = 0;
    while i < n
        invariant
            0 <= start <= i <= n,
            n == s@.len(),
            to_str@ =~= seq![ghost_to@],
            target == Seq::new(
                s@.len(),
                |k: int|
                    if s@[k] == from {
                        ghost_to@
                    } else {
                        s@[k]
                    },
            ),
            r@ =~= target.take(start as int),
            forall|k: int| start <= k < i ==> s@[k] != from,
        decreases n - i,
    {
        if s.get_char(i) == from {
            r.append(s.substring_char(start, i));
            r.append(to_str);
            proof {
                assert(s@.subrange(start as int, i as int) =~= target.subrange(
                    start as int,
                    i as int,
                ));
                assert(target[i as int] == ghost_to@);
                assert(r@ =~= target.take(i + 1));
            }
            i = i + 1;
            start = i;
        } else {
            i = i + 1;
        }
    }
    r.append(s.substring_char(start, n));
    proof {
        assert(s@.subrange(start as int, n as int) =~= target.subrange(start as int, n as int));
        assert(r@ =~= target);
    }
    r
}

/// Render a package name in its file-safe form.
pub fn file_safe_name(name: &str) -> (r: String)
    ensures
        r@ == file_safe_repr(name@),
{
    proof {
        reveal_strlit("~");
    }
    let r = replace_char(name, '/', "~", Ghost('~'));
    proof {
        assert(r@ =~= file_safe_repr(name@));
    }
    r
}

/// Decode a file-safe package name back to its real name.
pub fn decode_file_safe_name(s: &str) -> (r: String)
    ensures
        r@ == decoded_repr(s@),
{
    proof {
        reveal_strlit("/");
    }
    let r = replace_char(s, '~', "/", Ghost('/'));
    proof {
        assert(r@ =~= decoded_repr(s@));
    }
    r
}

/// The package name named by a request's path parameter, which carries
/// namespaced names in their file-safe form.
pub fn extract_crate_name(crate_id_param: &str) -> (r: String)
    ensures
        r@ == decoded_repr(crate_id_param@),
{
    decode_file_safe_name(crate_id_param)
}

/// Encoding and decoding round-trip: a name without the substitute
/// character comes back unchanged, so every package name survives the
/// file-safe form.
pub proof fn lemma_file_safe_round_trip(name: Seq<char>)
    requires
        forall|i: int| 0 <= i < name.len() ==> name[i] != '~',
    ensures
        decoded_repr(file_safe_repr(name)) == name,
{
    assert(decoded_repr(file_safe_repr(name)) =~= name);
}

/// The canonical character fold used for lookups: `-` and `_` are the
/// same separator, ASCII letters the same case.
pub open spec fn canon_char(c: char) -> char {
    if c == '-' {
        '_'
    } else if 'A' <= c && c <= 'Z' {
        ((c as int) + 32) as char
    } else {
        c
    }
}

/// The canonical image of a package name.
pub open spec fn canon_repr(s: Seq<char>) -> Seq<char> {
    Seq::new(s.len(), |i: int| canon_char(s[i]))
}

fn canon_subst(c: char) -> (r: Option<&'static str>)
    ensures
        r is Some <==> c != canon_char(c),
        r matches Some(t) ==> t@ =~= seq![canon_char(c)],
{
    proof {
        reveal_strlit("_");
        reveal_strlit("a");
        reveal_strlit("b");
        reveal_strlit("c");
        reveal_strlit("d");
        reveal_strlit("e");
        reveal_strlit("f");
        reveal_strlit("g");
        reveal_strlit("h");
        reveal_strlit("i");
        reveal_strlit("j");
        reveal_strlit("k");
        reveal_strlit("l");
        reveal_strlit("m");
        reveal_strlit("n");
        reveal_strlit("o");
        reveal_strlit("p");
        reveal_strlit("q");
        reveal_strlit("r");
        reveal_strlit("s");
        reveal_strlit("t");
        reveal_strlit("u");
        reveal_strlit("v");
        reveal_strlit("w");
        reveal_strlit("x");
        reveal_strlit("y");
        reveal_strlit("z");
    }
    match c {
        '-' => Some("_"),
        'A' => Some("a"),
        'B' => Some("b"),
        'C' => Some("c"),
        'D' => Some("d"),
        'E' => Some("e"),
        'F' => Some("f"),
        'G' => Some("g"),
        'H' => Some("h"),
        'I' => Some("i"),
        'J' => Some("j"),
        'K' => Some("k"),
        'L' => Some("l"),
        'M' => Some("m"),
        'N' => Some("n"),
        'O' => Some("o"),
        'P' => Some("p"),
        'Q' => Some("q"),
        'R' => Some("r"),
        'S' => Some("s"),
        'T' => Some("t"),
        'U' => Some("u"),
        'V' => Some("v"),
        'W' => Some("w"),
        'X' => Some("x"),
        'Y' => Some("y"),
        'Z' => Some("z"),
        _ => None,
    }
}

/// Render a package name in the canonical form used for lookups.
pub fn canon_crate_name(name: &str) -> (r: String)
    ensures
        r@ == canon_repr(name@),
{
    let n = name.unicode_len();
    let mut r = String::new();
    let mut i: usize = 0;
    let mut start: usize = 0;
    while i < n
        invariant
            0 <= start <= i <= n,
            n == name@.len(),
            r@ =~= canon_repr(name@).take(start as int),
            forall|k: int| start <= k < i ==> name@[k] == canon_char(name@[k]),
        decreases n - i,
    {
        match canon_subst(name.get_char(i)) {
            Some(t) => {
                r.append(name.substring_char(start, i));
                r.append(t);
                proof {
                    assert(name@.subrange(start as int, i as int) =~= canon_repr(name@).subrange(
                        start as int,
                        i as int,
                    ));
                    assert(r@ =~= canon_repr(name@).take(i + 1));
                }
                i = i + 1;
                start = i;
            },
            None => {
                i = i + 1;
            },
        }
    }
    r.append(name.substring_char(start, n));
    proof {
        assert(name@.subrange(start as int, n as int) =~= canon_repr(name@).subrange(
            start as int,
            n as int,
        ));
        assert(r@ =~= canon_repr(name@));
    }
    r
}

} // verus!

