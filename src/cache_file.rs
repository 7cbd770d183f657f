//! Naming of the per-game cache file, `{game}_{unix_seconds}.bin`, and
//! reading the game and the time back from a file name.
use vstd::prelude::*;
use vstd::string::*;

verus! {

/// Index of the first `c` in `t` (its length when there is none).
pub open spec fn first_index(t: Seq<char>, c: char) -> int
    decreases t.len(),
{
    if t.len() == 0 {
        0
    } else if t[0] == c {
        0
    } else {
        1 + first_index(t.drop_first(), c)
    }
}

/// Index of the last `c` in `t` (-1 when there is none).
pub open spec fn last_index(t: Seq<char>, c: char) -> int
    decreases t.len(),
{
    if t.len() == 0 {
        -1
    } else if t.last() == c {
        t.len() - 1
    } else {
        last_index(t.drop_last(), c)
    }
}

/// No character of `t` is `c`.
pub open spec fn lacks(t: Seq<char>, c: char) -> bool {
    forall|i: int| 0 <= i < t.len() ==> t[i] != c
}

/// The game that a cache file name is for: the text before its first `_`.
pub open spec fn game_of(name: Seq<char>) -> Seq<char> {
    name.subrange(0, first_index(name, '_'))
}

/// The fixed ending of every cache file name.
pub open spec fn suffix() -> Seq<char> {
    seq!['.', 'b', 'i', 'n']
}

/// The name without its `.bin` ending, when it has one.
pub open spec fn stem(name: Seq<char>) -> Option<Seq<char>> {
    if name.len() >= 4 && name.subrange(name.len() - 4, name.len() as int) == suffix() {
        Some(name.subrange(0, name.len() - 4))
    } else {
        None
    }
}

/// The text after the last `_` (all of `s` when it has none).
pub open spec fn last_segment(s: Seq<char>) -> Seq<char> {
    s.subrange(last_index(s, '_') + 1, s.len() as int)
}

/// Decimal digit character for `d` in 0..10.
pub open spec fn digit_char(d: int) -> char {
    (d + 48) as char
}

/// `c` is an ASCII decimal digit.
pub open spec fn is_digit(c: char) -> bool {
    '0' <= c <= '9'
}

/// Decimal digits of `n`, without leading zeros.
pub open spec fn digits(n: nat) -> Seq<char>
    decreases n,
{
    if n < 10 {
        seq![digit_char(n as int)]
    } else {
        digits(n / 10).push(digit_char((n % 10) as int))
    }
}

/// Decimal text of `n`, with a leading `-` when it is negative.
pub open spec fn decimal(n: int) -> Seq<char> {
    if n < 0 {
        seq!['-'] + digits((-n) as nat)
    } else {
        digits(n as nat)
    }
}

/// Value of a text of decimal digits.
pub open spec fn digits_value(s: Seq<char>) -> int
    decreases s.len(),
{
    if s.len() == 0 {
        0
    } else {
        digits_value(s.drop_last()) * 10 + (s.last() as int - 48)
    }
}

/// Every character of `s` is a decimal digit.
pub open spec fn all_digits(s: Seq<char>) -> bool {
    forall|i: int| 0 <= i < s.len() ==> is_digit(#[trigger] s[i])
}

/// The 64-bit signed integer that `t` spells: an optional `+` or `-`, then
/// one or more decimal digits, with a value in range.
pub open spec fn i64_of_text(t: Seq<char>) -> Option<int> {
    let neg = t.len() > 0 && t[0] == '-';
    let body = if t.len() > 0 && (t[0] == '-' || t[0] == '+') {
        t.drop_first()
    } else {
        t
    };
    if body.len() == 0 || !all_digits(body) {
        None
    } else {
        let v = if neg {
            -digits_value(body)
        } else {
            digits_value(body)
        };
        if i64::MIN <= v <= i64::MAX {
            Some(v)
        } else {
            None
        }
    }
}

/// The name of the cache file for `game` written at `seconds`.
pub open spec fn cache_name(game: Seq<char>, seconds: int) -> Seq<char> {
    game + seq!['_'] + decimal(seconds) + suffix()
}

/// The instant, in Unix seconds, that a cache file name records, before the
/// range check of the date library.
pub open spec fn recorded_seconds(name: Seq<char>) -> Option<int> {
    match stem(name) {
        Some(s) => i64_of_text(last_segment(s)),
        None => None,
    }
}

/// First second of the first day of chrono's date range, in year -262143.
pub const CHRONO_MIN_SECONDS: i64 = -8334601228800;

/// Last second of chrono's date range, 31 December of year 262142, 23:59:59.
pub const CHRONO_MAX_SECONDS: i64 = 8210266876799;

/// `seconds` lies in chrono's date range.
pub open spec fn dated(seconds: int) -> bool {
    CHRONO_MIN_SECONDS <= seconds <= CHRONO_MAX_SECONDS
}

/// The instant, in Unix seconds, that a cache file name records, when it
/// lies in chrono's date range.
pub open spec fn update_time(name: Seq<char>) -> Option<int> {
    match recorded_seconds(name) {
        Some(t) => if dated(t) {
            Some(t)
        } else {
            None
        },
        None => None,
    }
}

/// Relies on `chrono::DateTime::from_timestamp`, which gives `None` exactly
/// for a day outside years -262143 to 262142, and `DateTime::timestamp`,
/// which gives the seconds back.
#[verifier::external_body]
fn chrono_seconds(seconds: i64) -> (r: Option<i64>)
    ensures
        r is Some <==> dated(seconds as int),
        r matches Some(t) ==> t == seconds,
{
    chrono::DateTime::from_timestamp(seconds, 0).map(|d| d.timestamp())
}

/// The text of one decimal digit.
fn digit_text(d: u64) -> (r: &'static str)
    requires
        d < 10,
    ensures
        r@ == seq![digit_char(d as int)],
{
    match d {
        0 => {
            proof {
                reveal_strlit("0");
            }
            "0"
        },
        1 => {
            proof {
                reveal_strlit("1");
            }
            "1"
        },
        2 => {
            proof {
                reveal_strlit("2");
            }
            "2"
        },
        3 => {
            proof {
                reveal_strlit("3");
            }
            "3"
        },
        4 => {
            proof {
                reveal_strlit("4");
            }
            "4"
        },
        5 => {
            proof {
                reveal_strlit("5");
            }
            "5"
        },
        6 => {
            proof {
                reveal_strlit("6");
            }
            "6"
        },
        7 => {
            proof {
                reveal_strlit("7");
            }
            "7"
        },
        8 => {
            proof {
                reveal_strlit("8");
            }
            "8"
        },
        _ => {
            proof {
                reveal_strlit("9");
            }
            "9"
        },
    }
}

/// Appends the decimal digits of `n` to `out`.
fn append_digits(out: &mut String, n: u64)
    ensures
        final(out)@ == old(out)@ + digits(n as nat),
    decreases n,
{
    if n >= 10 {
        append_digits(out, n / 10);
    }
    out.append(digit_text(n % 10));
    assert(out@ =~= old(out)@ + digits(n as nat));
}

/// Decimal text of a 64-bit signed number, with a `-` before a negative one.
pub fn i64_text(n: i64) -> (r: String)
    ensures
        r@ == decimal(n as int),
{
    let mut r = String::new();
    if n < 0 {
        r.append("-");
        proof {
            reveal_strlit("-");
        }
        let m = (0i128 - n as i128) as u64;
        append_digits(&mut r, m);
        assert(r@ =~= decimal(n as int));
    } else {
        append_digits(&mut r, n as u64);
        assert(r@ =~= decimal(n as int));
    }
    r
}

/// Decimal text of a 64-bit unsigned number.
pub fn u64_text(n: u64) -> (r: String)
    ensures
        r@ == decimal(n as int),
{
    let mut r = String::new();
    append_digits(&mut r, n);
    assert(r@ =~= decimal(n as int));
    r
}

/// Index of the first `c` in `s`, or its length.
pub(crate) fn find_first(s: &str, c: char) -> (r: usize)
    ensures
        r == first_index(s@, c),
        r <= s@.len(),
        lacks(s@.subrange(0, r as int), c),
        r < s@.len() ==> s@[r as int] == c,
{
    let len = s.unicode_len();
    let mut i: usize = 0;
    while i < len
        invariant
            len == s@.len(),
            i <= len,
            lacks(s@.subrange(0, i as int), c),
        decreases len - i,
    {
        if s.get_char(i) == c {
            proof {
                lemma_first_index(s@, c, i as int);
            }
            return i;
        }
        assert(s@.subrange(0, i + 1) =~= s@.subrange(0, i as int).push(s@[i as int]));
        i = i + 1;
    }
    proof {
        lemma_first_index(s@, c, len as int);
        assert(s@.subrange(0, len as int) =~= s@);
    }
    len
}

proof fn lemma_first_index(t: Seq<char>, c: char, i: int)
    requires
        0 <= i <= t.len(),
        lacks(t.subrange(0, i), c),
        i < t.len() ==> t[i] == c,
    ensures
        first_index(t, c) == i,
    decreases i,
{
    if i > 0 {
        assert(t[0] == t.subrange(0, i)[0]);
        assert(t.drop_first().subrange(0, i - 1) =~= t.subrange(0, i).drop_first());
        lemma_first_index(t.drop_first(), c, i - 1);
    }
}

/// Index of the last `c` in `s`, or -1 when it has none.
fn find_last(s: &str, c: char) -> (r: Option<usize>)
    ensures
        r is None ==> last_index(s@, c) == -1,
        r matches Some(i) ==> last_index(s@, c) == i && i < s@.len(),
{
    let len = s.unicode_len();
    let mut i: usize = len;
    while i > 0
        invariant
            len == s@.len(),
            i <= len,
            lacks(s@.subrange(i as int, len as int), c),
        decreases i,
    {
        if s.get_char(i - 1) == c {
            proof {
                lemma_last_index(s@, c, i - 1);
            }
            return Some(i - 1);
        }
        assert(s@.subrange(i - 1, len as int) =~= seq![s@[i - 1]] + s@.subrange(i as int, len as int));
        i = i - 1;
    }
    proof {
        lemma_last_index(s@, c, -1);
    }
    None
}

proof fn lemma_last_index(t: Seq<char>, c: char, i: int)
    requires
        -1 <= i < t.len(),
        lacks(t.subrange(i + 1, t.len() as int), c),
        i >= 0 ==> t[i] == c,
    ensures
        last_index(t, c) == i,
    decreases t.len(),
{
    if t.len() > 0 && i < t.len() - 1 {
        assert(t.last() == t.subrange(i + 1, t.len() as int).last());
        assert(t.drop_last().subrange(i + 1, t.len() - 1) =~= t.subrange(i + 1, t.len() as int).drop_last());
        lemma_last_index(t.drop_last(), c, i);
    }
}

/// The game that cache file `name` is for: its text before the first `_`.
pub fn game_of_file_name(name: &str) -> (r: String)
    ensures
        r@ == game_of(name@),
{
    let i = find_first(name, '_');
    String::from_str(name.substring_char(0, i))
}

/// The name of the cache file for `game` written at Unix time `seconds`.
pub fn cache_file_name(game: &str, seconds: i64) -> (r: String)
    ensures
        r@ == cache_name(game@, seconds as int),
{
    let mut r = String::from_str(game);
    r.append("_");
    let digits = i64_text(seconds);
    r.append(digits.as_str());
    r.append(".bin");
    proof {
        reveal_strlit("_");
        reveal_strlit(".bin");
        assert(".bin"@ =~= suffix());
    }
    assert(r@ =~= cache_name(game@, seconds as int));
    r
}

/// Index of the first of `file_names` whose game is `game`: the cache file
/// of that game in a directory listed in that order.
pub fn locate(game: &str, file_names: &Vec<String>) -> (r: Option<usize>)
    ensures
        r is None ==> forall|i: int| 0 <= i < file_names@.len() ==> game_of(#[trigger] file_names@[i]@) != game@,
        r matches Some(i) ==> i < file_names@.len() && game_of(file_names@[i as int]@) == game@
            && forall|j: int| 0 <= j < i ==> game_of(#[trigger] file_names@[j]@) != game@,
{
    let target = String::from_str(game);
    let mut i: usize = 0;
    while i < file_names.len()
        invariant
            i <= file_names.len(),
            target@ == game@,
            forall|j: int| 0 <= j < i ==> game_of(#[trigger] file_names@[j]@) != game@,
        decreases file_names.len() - i,
    {
        let g = game_of_file_name(file_names[i].as_str());
        if g == target {
            return Some(i);
        }
        i = i + 1;
    }
    None
}

/// Parses a 64-bit signed integer as `str::parse::<i64>` reads one: an
/// optional `+` or `-`, then one or more decimal digits, in range.
pub fn parse_i64(t: &str) -> (r: Option<i64>)
    ensures
        r is None <==> i64_of_text(t@) is None,
        r matches Some(v) ==> i64_of_text(t@) == Some(v as int),
{
    let len = t.unicode_len();
    let mut start: usize = 0;
    let mut neg = false;
    if len > 0 {
        let c = t.get_char(0);
        if c == '-' {
            neg = true;
            start = 1;
        } else if c == '+' {
            start = 1;
        }
    }
    let ghost body = if t@.len() > 0 && (t@[0] == '-' || t@[0] == '+') {
        t@.drop_first()
    } else {
        t@
    };
    assert(body =~= t@.subrange(start as int, len as int));
    if start == len {
        return None;
    }
    let limit: i128 = 9223372036854775808;
    let mut v: i128 = 0;
    let mut i: usize = start;
    while i < len
        invariant
            len == t@.len(),
            start <= i <= len,
            body == t@.subrange(start as int, len as int),
            limit == 9223372036854775808,
            neg == (t@.len() > 0 && t@[0] == '-'),
            body == (if t@.len() > 0 && (t@[0] == '-' || t@[0] == '+') {
                t@.drop_first()
            } else {
                t@
            }),
            body.len() > 0,
            0 <= v <= limit + 1,
            digits_value(t@.subrange(start as int, i as int)) >= 0,
            all_digits(t@.subrange(start as int, i as int)),
            v == if digits_value(t@.subrange(start as int, i as int)) > limit {
                limit + 1
            } else {
                digits_value(t@.subrange(start as int, i as int))
            },
        decreases len - i,
    {
        let c = t.get_char(i);
        if c < '0' || c > '9' {
            proof {
                assert(body[i - start] == c);
                assert(!is_digit(body[i - start]));
                assert(!all_digits(body));
            }
            return None;
        }
        let d = (c as u32 - 48) as i128;
        assert(0 <= d <= 9);
        assert(all_digits(t@.subrange(start as int, i + 1))) by {
            assert forall|k: int| 0 <= k < i + 1 - start implies is_digit(
                #[trigger] t@.subrange(start as int, i + 1)[k],
            ) by {
                if k < i - start {
                    assert(t@.subrange(start as int, i + 1)[k] == t@.subrange(start as int, i as int)[k]);
                }
            }
        }
        let ghost prefix = t@.subrange(start as int, i + 1);
        assert(prefix.drop_last() =~= t@.subrange(start as int, i as int));
        assert(prefix.last() == c);
        if v > limit {
            v = limit + 1;
        } else {
            v = v * 10 + d;
            if v > limit {
                v = limit + 1;
            }
        }
        i = i + 1;
    }
    assert(t@.subrange(start as int, len as int) == body);
    if neg {
        if v > limit {
            None
        } else {
            Some((-v) as i64)
        }
    } else {
        if v > limit - 1 {
            None
        } else {
            Some(v as i64)
        }
    }
}

/// The instant, in Unix seconds, that cache file `name` was written at: the
/// number after its last `_`, once its `.bin` ending is taken off. `None`
/// when the name has no such ending, the number does not parse, or the date
/// library holds no date for it.
pub fn last_updated(name: &str) -> (r: Option<i64>)
    ensures
        r is None <==> update_time(name@) is None,
        r matches Some(t) ==> update_time(name@) == Some(t as int),
{
    let len = name.unicode_len();
    if len < 4 {
        return None;
    }
    let tail = name.substring_char(len - 4, len);
    let ending = String::from_str(".bin");
    if String::from_str(tail) != ending {
        proof {
            reveal_strlit(".bin");
            assert(".bin"@ =~= suffix());
        }
        return None;
    }
    proof {
        reveal_strlit(".bin");
        assert(".bin"@ =~= suffix());
    }
    let stem = name.substring_char(0, len - 4);
    let start = match find_last(stem, '_') {
        Some(i) => i + 1,
        None => 0,
    };
    let segment = stem.substring_char(start, stem.unicode_len());
    match parse_i64(segment) {
        None => None,
        Some(seconds) => chrono_seconds(seconds),
    }
}

} // verus!

verus! {

proof fn lemma_digits(n: nat)
    ensures
        digits(n).len() > 0,
        all_digits(digits(n)),
        lacks(digits(n), '_'),
        digits_value(digits(n)) == n,
    decreases n,
{
    if n < 10 {
        let s = digits(n);
        assert(s.drop_last() =~= Seq::<char>::empty());
        assert(digits_value(Seq::<char>::empty()) == 0);
        assert(s[0] == digit_char(n as int));
    } else {
        lemma_digits(n / 10);
        let s = digits(n);
        assert(s.drop_last() =~= digits(n / 10));
        assert(forall|i: int| 0 <= i < s.len() - 1 ==> s[i] == digits(n / 10)[i]);
        assert(s.last() == digit_char((n % 10) as int));
    }
}

/// The decimal text of a 64-bit signed number reads back as that number,
/// and holds no `_`.
pub proof fn lemma_decimal_round_trip(n: int)
    requires
        i64::MIN <= n <= i64::MAX,
    ensures
        i64_of_text(decimal(n)) == Some(n),
        lacks(decimal(n), '_'),
{
    if n < 0 {
        lemma_digits((-n) as nat);
        let t = decimal(n);
        assert(t.drop_first() =~= digits((-n) as nat));
        assert(t[0] == '-');
    } else {
        lemma_digits(n as nat);
        let t = digits(n as nat);
        assert(is_digit(t[0]));
    }
}

/// A cache file name names its game back, when the game holds no `_`, and
/// records the instant it was named with.
pub proof fn lemma_cache_name_parts(game: Seq<char>, seconds: int)
    requires
        lacks(game, '_'),
        i64::MIN <= seconds <= i64::MAX,
    ensures
        game_of(cache_name(game, seconds)) == game,
        recorded_seconds(cache_name(game, seconds)) == Some(seconds),
{
    let name = cache_name(game, seconds);
    let d = decimal(seconds);
    lemma_decimal_round_trip(seconds);
    assert(name.subrange(0, game.len() as int) =~= game);
    lemma_first_index(name, '_', game.len() as int);
    let s = game + seq!['_'] + d;
    assert(name.subrange(name.len() - 4, name.len() as int) =~= suffix());
    assert(name.subrange(0, name.len() - 4) =~= s);
    assert(s.subrange(game.len() as int + 1, s.len() as int) =~= d);
    lemma_last_index(s, '_', game.len() as int);
    assert(last_segment(s) =~= d);
}

} // verus!

verus! {

/// The name of the requirements document of `game`.
pub open spec fn config_name(game: Seq<char>) -> Seq<char> {
    seq!['r', 'e', 'q', 'u', 'i', 'r', 'e', 'm', 'e', 'n', 't', 's', '_'] + game + seq![
        '.',
        'j',
        's',
        'o',
        'n',
    ]
}

/// The name of the requirements document of `game`:
/// `requirements_{game}.json`.
pub fn config_file_name(game: &str) -> (r: String)
    ensures
        r@ == config_name(game@),
{
    let mut r = String::from_str("requirements_");
    r.append(game);
    r.append(".json");
    proof {
        reveal_strlit("requirements_");
        reveal_strlit(".json");
    }
    assert(r@ =~= config_name(game@));
    r
}

} // verus!
