//! Text: joining, comparing, splitting and trimming.

use vstd::prelude::*;
use vstd::string::StrSliceExecFns;
use vstd::string::StringExecFns;

verus! {

/// Whether a character is white space, as `char::is_whitespace` tells it.
pub uninterp spec fn white(c: char) -> bool;

/// `char::is_whitespace`: whether a character has the Unicode property `White_Space`.
/// The characters that have it are not spelled out.
#[verifier::external_body]
fn is_white(c: char) -> (r: bool)
    ensures
        r == white(c),
{
    c.is_whitespace()
}

/// Two texts joined.
pub fn concat(a: &str, b: &str) -> (r: String)
    ensures
        r@ == a@ + b@,
{
    String::from_str(a).concat(b)
}

/// Whether two texts are equal.
pub fn same_text(a: &str, b: &str) -> (r: bool)
    ensures
        r == (a@ == b@),
{
    String::from_str(a).eq(&String::from_str(b))
}

/// The character of a decimal digit.
pub open spec fn digit_char(d: nat) -> char {
    ('0' as int + d) as char
}

/// A number in decimal.
pub open spec fn decimal(n: nat) -> Seq<char>
    decreases n,
{
    if n < 10 {
        seq![digit_char(n)]
    } else {
        decimal(n / 10).push(digit_char(n % 10))
    }
}

fn digit(d: usize) -> (r: &'static str)
    requires
        d < 10,
    ensures
        r@ == seq![digit_char(d as nat)],
{
    proof {
        reveal_strlit("0");
        reveal_strlit("1");
        reveal_strlit("2");
        reveal_strlit("3");
        reveal_strlit("4");
        reveal_strlit("5");
        reveal_strlit("6");
        reveal_strlit("7");
        reveal_strlit("8");
        reveal_strlit("9");
        assert("0"@ =~= seq![digit_char(0)]);
        assert("1"@ =~= seq![digit_char(1)]);
        assert("2"@ =~= seq![digit_char(2)]);
        assert("3"@ =~= seq![digit_char(3)]);
        assert("4"@ =~= seq![digit_char(4)]);
        assert("5"@ =~= seq![digit_char(5)]);
        assert("6"@ =~= seq![digit_char(6)]);
        assert("7"@ =~= seq![digit_char(7)]);
        assert("8"@ =~= seq![digit_char(8)]);
        assert("9"@ =~= seq![digit_char(9)]);
    }
    match d {
        0 => "0",
        1 => "1",
        2 => "2",
        3 => "3",
        4 => "4",
        5 => "5",
        6 => "6",
        7 => "7",
        8 => "8",
        _ => "9",
    }
}

/// A number in decimal.
pub fn number(n: usize) -> (r: String)
    ensures
        r@ == decimal(n as nat),
    decreases n,
{
    if n < 10 {
        copy_text(digit(n))
    } else {
        let front = number(n / 10);
        let r = concat(front.as_str(), digit(n % 10));
        proof {
            assert(r@ =~= decimal((n / 10) as nat).push(digit_char((n % 10) as nat)));
        }
        r
    }
}

/// A long number in decimal.
pub fn long_number(n: u64) -> (r: String)
    ensures
        r@ == decimal(n as nat),
    decreases n,
{
    if n < 10 {
        copy_text(digit(n as usize))
    } else {
        let front = long_number(n / 10);
        let r = concat(front.as_str(), digit((n % 10) as usize));
        proof {
            assert(r@ =~= decimal((n / 10) as nat).push(digit_char((n % 10) as nat)));
        }
        r
    }
}

/// Decimals are made of digits.
pub proof fn lemma_decimal_digits(n: nat)
    ensures
        decimal(n).len() > 0,
        n >= 10 ==> decimal(n).len() > 1,
        forall|i: int|
            0 <= i < decimal(n).len() ==> '0' as int <= (#[trigger] decimal(n)[i]) as int <= '9' as int,
    decreases n,
{
    if n >= 10 {
        lemma_decimal_digits(n / 10);
    }
}

/// Different numbers have different decimals.
pub proof fn lemma_decimal_injective(a: nat, b: nat)
    requires
        decimal(a) == decimal(b),
    ensures
        a == b,
    decreases a,
{
    lemma_decimal_digits(a);
    lemma_decimal_digits(b);
    if a < 10 {
        assert(b < 10);
        assert(decimal(a)[0] as int == '0' as int + a);
        assert(decimal(b)[0] as int == '0' as int + b);
    } else {
        let da = decimal(a);
        let db = decimal(b);
        assert(b >= 10);
        assert(da.drop_last() =~= decimal(a / 10));
        assert(db.drop_last() =~= decimal(b / 10));
        lemma_decimal_injective(a / 10, b / 10);
        assert(da.last() as int == '0' as int + a % 10);
        assert(db.last() as int == '0' as int + b % 10);
    }
}

/// A copy of a text.
pub fn copy_text(a: &str) -> (r: String)
    ensures
        r@ == a@,
{
    String::from_str(a)
}

/// Whether a text is in a list.
pub open spec fn lists_text(ts: Seq<String>, t: Seq<char>) -> bool {
    exists|i: int| 0 <= i < ts.len() && (#[trigger] ts[i])@ == t
}

/// Whether a text is in a list.
pub fn contains_text(ts: &Vec<String>, t: &str) -> (r: bool)
    ensures
        r == lists_text(ts@, t@),
{
    let mut i: usize = 0;
    while i < ts.len()
        invariant
            i <= ts@.len(),
            forall|k: int| 0 <= k < i ==> (#[trigger] ts@[k])@ != t@,
        decreases ts.len() - i,
    {
        if same_text(ts[i].as_str(), t) {
            return true;
        }
        i += 1;
    }
    false
}

/// A text without the white space at its start.
pub open spec fn trimmed_start(s: Seq<char>) -> Seq<char>
    decreases s.len(),
{
    if s.len() > 0 && white(s[0]) {
        trimmed_start(s.drop_first())
    } else {
        s
    }
}

/// A text without the white space at its end.
pub open spec fn trimmed_end(s: Seq<char>) -> Seq<char>
    decreases s.len(),
{
    if s.len() > 0 && white(s.last()) {
        trimmed_end(s.drop_last())
    } else {
        s
    }
}

/// A text without the white space at either side.
pub open spec fn trimmed(s: Seq<char>) -> Seq<char> {
    trimmed_end(trimmed_start(s))
}

/// A text without the white space at either side.
pub fn trim(s: &str) -> (r: &str)
    ensures
        r@ == trimmed(s@),
{
    let n: usize = s.unicode_len();
    let mut i: usize = 0;
    proof {
        assert(s@.skip(0) =~= s@);
    }
    while i < n && is_white(s.get_char(i))
        invariant
            i <= n,
            n == s@.len(),
            trimmed_start(s@) == trimmed_start(s@.skip(i as int)),
        decreases n - i,
    {
        proof {
            assert(s@.skip(i as int).drop_first() =~= s@.skip(i + 1));
        }
        i += 1;
    }
    let ghost front = s@.skip(i as int);
    let mut j: usize = n;
    proof {
        assert(trimmed_start(s@) == front);
        assert(s@.subrange(i as int, j as int) =~= front);
    }
    while j > i && is_white(s.get_char(j - 1))
        invariant
            i <= j <= n,
            n == s@.len(),
            trimmed_end(front) == trimmed_end(s@.subrange(i as int, j as int)),
        decreases j,
    {
        proof {
            assert(s@.subrange(i as int, j as int).drop_last() =~= s@.subrange(i as int, j - 1));
        }
        j -= 1;
    }
    s.substring_char(i, j)
}

/// The pieces of a text between separators.
pub open spec fn pieces(s: Seq<char>, sep: char) -> Seq<Seq<char>>
    decreases s.len(),
{
    if s.len() == 0 {
        seq![Seq::empty()]
    } else {
        let rest = pieces(s.drop_last(), sep);
        if s.last() == sep {
            rest.push(Seq::empty())
        } else {
            rest.drop_last().push(rest.last().push(s.last()))
        }
    }
}

pub open spec fn texts(ts: Seq<String>) -> Seq<Seq<char>> {
    Seq::new(ts.len(), |i: int| ts[i]@)
}

/// The pieces of a text between separators.
pub fn split(s: &str, sep: char) -> (out: Vec<String>)
    ensures
        texts(out@) == pieces(s@, sep),
{
    let n: usize = s.unicode_len();
    let mut out: Vec<String> = Vec::new();
    let mut start: usize = 0;
    let mut i: usize = 0;
    proof {
        assert(s@.take(0) =~= Seq::<char>::empty());
        assert(texts(out@).push(s@.subrange(0, 0)) =~= seq![Seq::<char>::empty()]);
    }
    while i < n
        invariant
            start <= i <= n,
            n == s@.len(),
            pieces(s@.take(i as int), sep) == texts(out@).push(
                s@.subrange(start as int, i as int),
            ),
        decreases n - i,
    {
        let ghost before = texts(out@);
        let ghost piece = s@.subrange(start as int, i as int);
        proof {
            assert(s@.take(i + 1).drop_last() =~= s@.take(i as int));
            assert(s@.take(i + 1).last() == s@[i as int]);
            assert(before.push(piece).drop_last() =~= before);
        }
        if s.get_char(i) == sep {
            out.push(String::from_str(s.substring_char(start, i)));
            start = i + 1;
            proof {
                assert(texts(out@) =~= before.push(piece));
                assert(s@.subrange(i + 1, i + 1) =~= Seq::<char>::empty());
            }
        } else {
            proof {
                assert(s@.subrange(start as int, i + 1) =~= piece.push(s@[i as int]));
            }
        }
        i += 1;
    }
    let ghost before = texts(out@);
    out.push(String::from_str(s.substring_char(start, n)));
    proof {
        assert(s@.take(n as int) =~= s@);
        assert(texts(out@) =~= before.push(s@.subrange(start as int, n as int)));
    }
    out
}

/// A text is at a place of another.
pub open spec fn occurs_at(s: Seq<char>, t: Seq<char>, i: int) -> bool {
    0 <= i && i + t.len() <= s.len() && s.subrange(i, i + t.len()) == t
}

/// The first place of a text in another, from a place on.
pub open spec fn first_at(s: Seq<char>, t: Seq<char>, from: int) -> Option<int>
    decreases s.len() + 1 - from,
{
    if from < 0 || from + t.len() > s.len() {
        None
    } else if occurs_at(s, t, from) {
        Some(from)
    } else {
        first_at(s, t, from + 1)
    }
}

/// A text from a place on, with every occurrence of another replaced.
pub open spec fn replaced_from(s: Seq<char>, t: Seq<char>, u: Seq<char>, from: int) -> Seq<char>
    decreases s.len() - from,
{
    match first_at(s, t, from) {
        Some(i) => if 0 <= from <= i && t.len() > 0 && i + t.len() <= s.len() {
            s.subrange(from, i) + u + replaced_from(s, t, u, i + t.len())
        } else {
            s.skip(from)
        },
        None => s.skip(from),
    }
}

/// A text with every occurrence of another replaced.
pub open spec fn replaced(s: Seq<char>, t: Seq<char>, u: Seq<char>) -> Seq<char> {
    replaced_from(s, t, u, 0)
}

/// A text with another put in at a place.
pub open spec fn put_at(s: Seq<char>, i: int, u: Seq<char>) -> Seq<char> {
    s.take(i) + u + s.skip(i)
}

/// A text with another put in behind the first occurrence of a third, where there is
/// one.
pub open spec fn put_behind(s: Seq<char>, t: Seq<char>, u: Seq<char>) -> Seq<char> {
    match first_at(s, t, 0) {
        Some(i) => put_at(s, i + t.len(), u),
        None => s,
    }
}

/// A text with the first occurrence of another replaced, where there is one.
pub open spec fn replaced_once(s: Seq<char>, t: Seq<char>, u: Seq<char>) -> Seq<char> {
    match first_at(s, t, 0) {
        Some(i) => s.take(i) + u + s.skip(i + t.len()),
        None => s,
    }
}

/// The last place of a character in a text, or `-1`.
pub open spec fn last_place(s: Seq<char>, c: char) -> int
    decreases s.len(),
{
    if s.len() == 0 {
        -1
    } else if s.last() == c {
        s.len() - 1
    } else {
        last_place(s.drop_last(), c)
    }
}

/// A text with another put in before the last occurrence of a character, where there
/// is one.
pub open spec fn put_before_last(s: Seq<char>, c: char, u: Seq<char>) -> Seq<char> {
    if last_place(s, c) >= 0 {
        put_at(s, last_place(s, c), u)
    } else {
        s
    }
}

/// The characters of a text.
pub fn letters(s: &str) -> (r: Vec<char>)
    ensures
        r@ == s@,
{
    let n: usize = s.unicode_len();
    let mut out: Vec<char> = Vec::new();
    let mut i: usize = 0;
    while i < n
        invariant
            i <= n,
            n == s@.len(),
            out@ == s@.take(i as int),
        decreases n - i,
    {
        out.push(s.get_char(i));
        proof {
            assert(s@.take(i + 1) =~= s@.take(i as int).push(s@[i as int]));
        }
        i += 1;
    }
    proof {
        assert(s@.take(n as int) =~= s@);
    }
    out
}

/// Whether a text is at a place of another.
fn is_at(s: &Vec<char>, t: &Vec<char>, i: usize) -> (r: bool)
    requires
        i + t@.len() <= s@.len(),
    ensures
        r == occurs_at(s@, t@, i as int),
{
    let mut k: usize = 0;
    let n: usize = s.len();
    while k < t.len()
        invariant
            k <= t@.len(),
            n == s@.len(),
            i + t@.len() <= n,
            forall|j: int| 0 <= j < k ==> s@[i + j] == #[trigger] t@[j],
        decreases t.len() - k,
    {
        if s[i + k] != t[k] {
            proof {
                let sub = s@.subrange(i as int, i + t@.len());
                assert(sub[k as int] == s@[i + k]);
            }
            return false;
        }
        k += 1;
    }
    proof {
        assert(s@.subrange(i as int, i + t@.len()) =~= t@);
    }
    true
}

/// The first place of a text in another, from a place on.
fn find_letters(s: &Vec<char>, t: &Vec<char>, from: usize) -> (r: Option<usize>)
    ensures
        r is Some == first_at(s@, t@, from as int) is Some,
        r matches Some(i) ==> first_at(s@, t@, from as int) == Some(i as int) && from <= i && i
            + t@.len() <= s@.len(),
{
    if t.len() > s.len() {
        return None;
    }
    let last: usize = s.len() - t.len();
    let mut i: usize = from;
    while i <= last
        invariant
            from <= i,
            i <= last + 1 || i == from,
            last + t@.len() == s@.len(),
            first_at(s@, t@, from as int) == first_at(s@, t@, i as int),
        decreases last + 1 - i,
    {
        if is_at(s, t, i) {
            return Some(i);
        }
        if i == last {
            proof {
                assert(first_at(s@, t@, i + 1) is None);
            }
            return None;
        }
        i += 1;
    }
    None
}

/// A text with every occurrence of another replaced.
pub fn replace_all(s: &str, t: &str, u: &str) -> (r: String)
    ensures
        r@ == replaced(s@, t@, u@),
{
    let text = letters(s);
    let needle = letters(t);
    let n: usize = text.len();
    if needle.len() == 0 {
        proof {
            assert(s@.skip(0) =~= s@);
        }
        return copy_text(s);
    }
    let mut out = copy_text("");
    let mut from: usize = 0;
    proof {
        reveal_strlit("");
        assert(out@ + replaced_from(s@, t@, u@, 0) =~= replaced_from(s@, t@, u@, 0));
    }
    loop
        invariant
            text@ == s@,
            n == s@.len(),
            needle@ == t@,
            needle@.len() > 0,
            from <= s@.len(),
            out@ + replaced_from(s@, t@, u@, from as int) == replaced(s@, t@, u@),
        decreases s@.len() - from,
    {
        match find_letters(&text, &needle, from) {
            None => {
                let rest = s.substring_char(from, n);
                proof {
                    assert(rest@ =~= s@.skip(from as int));
                }
                return concat(out.as_str(), rest);
            },
            Some(i) => {
                let ghost had = out@;
                let front = s.substring_char(from, i);
                let more = concat(out.as_str(), front);
                out = concat(more.as_str(), u);
                let next: usize = i + needle.len();
                proof {
                    assert(out@ + replaced_from(s@, t@, u@, next as int) =~= had
                        + replaced_from(s@, t@, u@, from as int));
                }
                from = next;
            },
        }
    }
}

/// A text with another put in at a place.
fn insert_at(s: &str, i: usize, u: &str) -> (r: String)
    requires
        i <= s@.len(),
    ensures
        r@ == put_at(s@, i as int, u@),
{
    let n: usize = s.unicode_len();
    let front = concat(s.substring_char(0, i), u);
    let r = concat(front.as_str(), s.substring_char(i, n));
    proof {
        assert(r@ =~= put_at(s@, i as int, u@));
    }
    r
}

/// A text with another put in behind the first occurrence of a third.
pub fn insert_behind(s: &str, t: &str, u: &str) -> (r: String)
    ensures
        r@ == put_behind(s@, t@, u@),
{
    let text = letters(s);
    let needle = letters(t);
    let _total: usize = text.len();
    match find_letters(&text, &needle, 0) {
        Some(i) => insert_at(s, i + needle.len(), u),
        None => copy_text(s),
    }
}

/// A text with the first occurrence of another replaced.
pub fn replace_first(s: &str, t: &str, u: &str) -> (r: String)
    ensures
        r@ == replaced_once(s@, t@, u@),
{
    let text = letters(s);
    let needle = letters(t);
    match find_letters(&text, &needle, 0) {
        Some(i) => {
            let n: usize = s.unicode_len();
            let front = concat(s.substring_char(0, i), u);
            let r = concat(front.as_str(), s.substring_char(i + needle.len(), n));
            proof {
                assert(r@ =~= replaced_once(s@, t@, u@));
            }
            r
        },
        None => copy_text(s),
    }
}

/// A text with another put in before the last occurrence of a character.
pub fn insert_before_last(s: &str, c: char, u: &str) -> (r: String)
    ensures
        r@ == put_before_last(s@, c, u@),
{
    let n: usize = s.unicode_len();
    let mut i: usize = n;
    proof {
        assert(s@.take(n as int) =~= s@);
    }
    while i > 0
        invariant
            i <= n,
            n == s@.len(),
            last_place(s@, c) == last_place(s@.take(i as int), c),
        decreases i,
    {
        proof {
            assert(s@.take(i as int).drop_last() =~= s@.take(i - 1));
            assert(s@.take(i as int).last() == s@[i - 1]);
        }
        if s.get_char(i - 1) == c {
            return insert_at(s, i - 1, u);
        }
        i -= 1;
    }
    copy_text(s)
}

/// One text comes before another in the order of their characters.
pub open spec fn before(a: Seq<char>, b: Seq<char>) -> bool
    decreases a.len(),
{
    if b.len() == 0 {
        false
    } else if a.len() == 0 {
        true
    } else if a[0] != b[0] {
        (a[0] as int) < (b[0] as int)
    } else {
        before(a.drop_first(), b.drop_first())
    }
}

/// Of two texts that differ, one comes before the other.
pub proof fn law_before(a: Seq<char>, b: Seq<char>)
    ensures
        a == b || before(a, b) || before(b, a),
        !(before(a, b) && before(b, a)),
        !before(a, a),
    decreases a.len(),
{
    if a.len() > 0 && b.len() > 0 {
        law_before(a.drop_first(), b.drop_first());
        if a[0] == b[0] && a.drop_first() == b.drop_first() {
            assert(a =~= seq![a[0]] + a.drop_first());
            assert(b =~= seq![b[0]] + b.drop_first());
        }
    }
    if a.len() > 0 {
        law_before(a.drop_first(), a.drop_first());
    }
    if a.len() == 0 && b.len() == 0 {
        assert(a =~= b);
    }
}

/// The order of texts is transitive.
pub proof fn law_before_trans(a: Seq<char>, b: Seq<char>, c: Seq<char>)
    requires
        before(a, b),
        before(b, c),
    ensures
        before(a, c),
    decreases a.len(),
{
    if a.len() > 0 && a[0] == b[0] && b[0] == c[0] {
        law_before_trans(a.drop_first(), b.drop_first(), c.drop_first());
    }
}

/// Whether one text comes before another in the order of their characters.
pub fn comes_before(a: &str, b: &str) -> (r: bool)
    ensures
        r == before(a@, b@),
{
    let n: usize = a.unicode_len();
    let k: usize = b.unicode_len();
    let mut i: usize = 0;
    proof {
        assert(a@.skip(0) =~= a@);
        assert(b@.skip(0) =~= b@);
    }
    while i < n && i < k
        invariant
            i <= n,
            i <= k,
            n == a@.len(),
            k == b@.len(),
            before(a@, b@) == before(a@.skip(i as int), b@.skip(i as int)),
        decreases n - i,
    {
        let x = a.get_char(i);
        let y = b.get_char(i);
        proof {
            assert(a@.skip(i as int).drop_first() =~= a@.skip(i + 1));
            assert(b@.skip(i as int).drop_first() =~= b@.skip(i + 1));
        }
        if x != y {
            return (x as u32) < (y as u32);
        }
        i += 1;
    }
    i < k
}

} // verus!
