use vstd::prelude::*;

verus! {

/// A player's move, with zero-based (column, row) coordinates.
#[derive(Debug, Clone, Copy, PartialEq, Eq, Structural)]
pub enum Action {
    Open(usize, usize),
    Flag(usize, usize),
    Quit,
}

/// The byte with ASCII upper-case letters lowered.
pub open spec fn lower(b: u8) -> u8 {
    if 65 <= b <= 90 {
        (b + 32) as u8
    } else {
        b
    }
}

/// Space, tab, line feed, form feed or carriage return.
pub open spec fn is_blank(b: u8) -> bool {
    b == 32 || b == 9 || b == 10 || b == 12 || b == 13
}

/// `s` begins with the lower-case word `w`, ignoring ASCII case.
pub open spec fn has_prefix(s: Seq<u8>, w: Seq<u8>) -> bool {
    w.len() <= s.len() && forall|i: int| 0 <= i < w.len() ==> lower(#[trigger] s[i]) == w[i]
}

/// The first index from `i` on that holds no blank, or the length of `s`.
pub open spec fn skip_blanks(s: Seq<u8>, i: int) -> int
    decreases s.len() - i,
{
    if i < 0 || i >= s.len() || !is_blank(s[i]) {
        i
    } else {
        skip_blanks(s, i + 1)
    }
}

/// The first index from `i` on that holds a blank, or the length of `s`.
pub open spec fn word_end(s: Seq<u8>, i: int) -> int
    decreases s.len() - i,
{
    if i < 0 || i >= s.len() || is_blank(s[i]) {
        i
    } else {
        word_end(s, i + 1)
    }
}

/// Where the `n`-th blank-separated word of `s` starts, counting from zero;
/// the length of `s` when there are fewer words.
pub open spec fn word_start(s: Seq<u8>, n: nat) -> int
    decreases n,
{
    if n == 0 {
        skip_blanks(s, 0)
    } else {
        skip_blanks(s, word_end(s, word_start(s, (n - 1) as nat)))
    }
}

/// The `n`-th blank-separated word of `s`, empty when there is none.
pub open spec fn word(s: Seq<u8>, n: nat) -> Seq<u8> {
    s.subrange(word_start(s, n), word_end(s, word_start(s, n)))
}

pub open spec fn is_digit(b: u8) -> bool {
    48 <= b <= 57
}

/// The number that the decimal digits `t` write.
pub open spec fn digits_value(t: Seq<u8>) -> nat
    decreases t.len(),
{
    if t.len() == 0 {
        0
    } else {
        digits_value(t.drop_last()) * 10 + (t.last() - 48) as nat
    }
}

/// A one-based coordinate written as decimal digits, with an optional
/// leading `+`, whose value is from 1 to `i32::MAX`, as the zero-based
/// coordinate.
pub open spec fn coordinate(t: Seq<u8>) -> Option<usize> {
    let d = unsigned_part(t);
    if d.len() > 0 && all_digits(d) && 1 <= digits_value(d) <= i32::MAX {
        Some((digits_value(d) - 1) as usize)
    } else {
        None
    }
}

/// `t` without a leading `+`.
pub open spec fn unsigned_part(t: Seq<u8>) -> Seq<u8> {
    if t.len() > 0 && t[0] == 43 {
        t.subrange(1, t.len() as int)
    } else {
        t
    }
}

pub open spec fn all_digits(d: Seq<u8>) -> bool {
    forall|i: int| 0 <= i < d.len() ==> is_digit(#[trigger] d[i])
}

pub open spec fn word_open() -> Seq<u8> {
    seq![111u8, 112u8, 101u8, 110u8]
}

pub open spec fn word_flag() -> Seq<u8> {
    seq![102u8, 108u8, 97u8, 103u8]
}

pub open spec fn word_quit() -> Seq<u8> {
    seq![113u8, 117u8, 105u8, 116u8]
}

/// The move that the line `s` asks for. A line that begins with `open` or
/// `flag` (in any case) takes its second and third words as one-based column
/// and row; a line that begins with `quit` quits; anything else is no move.
pub open spec fn action_of(s: Seq<u8>) -> Option<Action> {
    if has_prefix(s, word_open()) || has_prefix(s, word_flag()) {
        match (coordinate(word(s, 1)), coordinate(word(s, 2))) {
            (Some(x), Some(y)) => if has_prefix(s, word_flag()) {
                Some(Action::Flag(x, y))
            } else {
                Some(Action::Open(x, y))
            },
            _ => None,
        }
    } else if has_prefix(s, word_quit()) {
        Some(Action::Quit)
    } else {
        None
    }
}

fn lower_byte(b: u8) -> (r: u8)
    ensures
        r == lower(b),
{
    if 65 <= b && b <= 90 {
        b + 32
    } else {
        b
    }
}

fn blank(b: u8) -> (r: bool)
    ensures
        r == is_blank(b),
{
    b == 32 || b == 9 || b == 10 || b == 12 || b == 13
}

fn starts_with_word(s: &[u8], w: [u8; 4]) -> (r: bool)
    ensures
        r == has_prefix(s@, w@),
{
    if s.len() < 4 {
        return false;
    }
    let mut i: usize = 0;
    while i < 4
        invariant
            i <= 4,
            4 <= s@.len(),
            w@.len() == 4,
            forall|j: int| 0 <= j < i ==> lower(#[trigger] s@[j]) == w@[j],
        decreases 4 - i,
    {
        if lower_byte(s[i]) != w[i] {
            return false;
        }
        i = i + 1;
    }
    true
}

fn skip_blanks_from(s: &[u8], i: usize) -> (r: usize)
    requires
        i <= s@.len(),
    ensures
        r == skip_blanks(s@, i as int),
        i <= r <= s@.len(),
{
    let mut k = i;
    while k < s.len() && blank(s[k])
        invariant
            i <= k <= s@.len(),
            skip_blanks(s@, k as int) == skip_blanks(s@, i as int),
        decreases s.len() - k,
    {
        k = k + 1;
    }
    k
}

fn word_end_from(s: &[u8], i: usize) -> (r: usize)
    requires
        i <= s@.len(),
    ensures
        r == word_end(s@, i as int),
        i <= r <= s@.len(),
{
    let mut k = i;
    while k < s.len() && !blank(s[k])
        invariant
            i <= k <= s@.len(),
            word_end(s@, k as int) == word_end(s@, i as int),
        decreases s.len() - k,
    {
        k = k + 1;
    }
    k
}

proof fn lemma_digits_value_prefix(t: Seq<u8>, i: int)
    requires
        0 <= i <= t.len(),
        forall|j: int| 0 <= j < t.len() ==> is_digit(#[trigger] t[j]),
    ensures
        digits_value(t.take(i)) <= digits_value(t),
    decreases t.len(),
{
    if i < t.len() {
        let u = t.drop_last();
        assert(u.take(i) =~= t.take(i));
        lemma_digits_value_prefix(u, i);
    } else {
        assert(t.take(i) =~= t);
    }
}

/// Reads the coordinate written in `s[a..b]`.
fn parse_coordinate(s: &[u8], a: usize, b: usize) -> (r: Option<usize>)
    requires
        a <= b <= s@.len(),
    ensures
        r == coordinate(s@.subrange(a as int, b as int)),
{
    let ghost t = s@.subrange(a as int, b as int);
    let mut k = a;
    if k < b && s[k] == 43 {
        k = k + 1;
    }
    let ghost d = s@.subrange(k as int, b as int);
    assert(d =~= unsigned_part(t));
    if k == b {
        return None;
    }
    let start = k;
    let mut acc: u64 = 0;
    while k < b
        invariant
            a <= start <= k <= b <= s@.len(),
            t == s@.subrange(a as int, b as int),
            d == s@.subrange(start as int, b as int),
            d == unsigned_part(t),
            forall|j: int| 0 <= j < k - start ==> is_digit(#[trigger] d[j]),
            acc == digits_value(d.take(k - start)),
            acc <= i32::MAX,
        decreases b - k,
    {
        let c = s[k];
        if c < 48 || c > 57 {
            assert(!is_digit(d[k - start]));
            return None;
        }
        proof {
            assert(d.take(k - start + 1).drop_last() =~= d.take(k - start));
        }
        acc = acc * 10 + (c - 48) as u64;
        k = k + 1;
        if acc > 2147483647 {
            proof {
                if all_digits(d) {
                    lemma_digits_value_prefix(d, k - start);
                }
            }
            return None;
        }
    }
    assert(d.take(k - start) =~= d);
    if acc < 1 {
        return None;
    }
    Some((acc - 1) as usize)
}

/// Reads a move from a line of input. The coordinates that a player types
/// count from one; the move holds them counted from zero.
pub fn parse_action(s: &[u8]) -> (r: Option<Action>)
    ensures
        r == action_of(s@),
{
    let is_open = starts_with_word(s, [111u8, 112u8, 101u8, 110u8]);
    let is_flag = starts_with_word(s, [102u8, 108u8, 97u8, 103u8]);
    proof {
        assert([111u8, 112u8, 101u8, 110u8]@ =~= word_open());
    }
    if is_open || is_flag {
        let s0 = skip_blanks_from(s, 0);
        let e0 = word_end_from(s, s0);
        let s1 = skip_blanks_from(s, e0);
        let e1 = word_end_from(s, s1);
        let s2 = skip_blanks_from(s, e1);
        let e2 = word_end_from(s, s2);
        assert(word_start(s@, 0) == s0);
        assert(word_start(s@, 1) == s1);
        assert(word_start(s@, 2) == s2);
        let x = parse_coordinate(s, s1, e1);
        let y = parse_coordinate(s, s2, e2);
        match (x, y) {
            (Some(x), Some(y)) => {
                if is_flag {
                    Some(Action::Flag(x, y))
                } else {
                    Some(Action::Open(x, y))
                }
            },
            _ => None,
        }
    } else if starts_with_word(s, [113u8, 117u8, 105u8, 116u8]) {
        Some(Action::Quit)
    } else {
        None
    }
}

} // verus!
