//! Text as sequences of characters: trimming, splitting, decimal integers.
use vstd::prelude::*;

verus! {

broadcast use vstd::string::group_string_axioms;

// ---- specifications ----

/// Unicode `White_Space`, as `char::is_whitespace` decides it.
pub open spec fn is_ws(c: char) -> bool {
    ||| c == ' '
    ||| ('\t' <= c && c <= '\r')
    ||| c == '\u{85}'
    ||| c == '\u{a0}'
    ||| c == '\u{1680}'
    ||| ('\u{2000}' <= c && c <= '\u{200a}')
    ||| c == '\u{2028}'
    ||| c == '\u{2029}'
    ||| c == '\u{202f}'
    ||| c == '\u{205f}'
    ||| c == '\u{3000}'
}

pub open spec fn trim_start(s: Seq<char>) -> Seq<char>
    decreases s.len(),
{
    if s.len() > 0 && is_ws(s[0]) {
        trim_start(s.drop_first())
    } else {
        s
    }
}

pub open spec fn trim_end(s: Seq<char>) -> Seq<char>
    decreases s.len(),
{
    if s.len() > 0 && is_ws(s.last()) {
        trim_end(s.drop_last())
    } else {
        s
    }
}

pub open spec fn trim(s: Seq<char>) -> Seq<char> {
    trim_end(trim_start(s))
}

pub open spec fn upper_char(c: char) -> char {
    if 'a' <= c && c <= 'z' {
        ((c as u32) - 32) as char
    } else {
        c
    }
}

pub open spec fn to_upper(s: Seq<char>) -> Seq<char> {
    s.map_values(|c: char| upper_char(c))
}

/// Index of the first `c` in `s`, if any.
pub open spec fn find_char(s: Seq<char>, c: char) -> Option<int>
    decreases s.len(),
{
    if s.len() == 0 {
        None
    } else if s[0] == c {
        Some(0)
    } else {
        match find_char(s.drop_first(), c) {
            Some(i) => Some(i + 1),
            None => None,
        }
    }
}

/// The pieces of `s` between occurrences of `c` (`str::split` with a char).
pub open spec fn split(s: Seq<char>, c: char) -> Seq<Seq<char>>
    decreases s.len(),
{
    match find_char(s, c) {
        Some(i) => {
            if 0 <= i < s.len() {
                seq![s.take(i)] + split(s.skip(i + 1), c)
            } else {
                seq![s]
            }
        },
        None => seq![s],
    }
}

/// `str::split_once` with a char: the text before and after the first `c`.
pub open spec fn split_once(s: Seq<char>, c: char) -> Option<(Seq<char>, Seq<char>)> {
    match find_char(s, c) {
        Some(i) => Some((s.take(i), s.skip(i + 1))),
        None => None,
    }
}

pub open spec fn is_digit(c: char) -> bool {
    '0' <= c && c <= '9'
}

pub open spec fn all_digits(s: Seq<char>) -> bool {
    forall|i: int| 0 <= i < s.len() ==> is_digit(#[trigger] s[i])
}

pub open spec fn digit_value(c: char) -> int {
    (c as int) - ('0' as int)
}

/// The value of a run of decimal digits.
pub open spec fn digits_value(s: Seq<char>) -> int
    decreases s.len(),
{
    if s.len() == 0 {
        0
    } else {
        digits_value(s.drop_last()) * 10 + digit_value(s.last())
    }
}

/// The integer that Rust's `FromStr` for integers reads from `s`, before the
/// range of the target type is checked: an optional `+` or `-`, then one or
/// more ASCII digits, and nothing else.
pub open spec fn parse_integer(s: Seq<char>) -> Option<int> {
    if s.len() > 0 && (s[0] == '+' || s[0] == '-') {
        let rest = s.drop_first();
        if rest.len() > 0 && all_digits(rest) {
            if s[0] == '-' {
                Some(-digits_value(rest))
            } else {
                Some(digits_value(rest))
            }
        } else {
            None
        }
    } else if s.len() > 0 && all_digits(s) {
        Some(digits_value(s))
    } else {
        None
    }
}

/// What `str::parse::<T>` gives for an integer type whose values are
/// `lo..=hi`. For an unsigned type a leading `-` is refused.
pub open spec fn parse_in_range(s: Seq<char>, lo: int, hi: int) -> Option<int> {
    if lo >= 0 && s.len() > 0 && s[0] == '-' {
        None
    } else {
        match parse_integer(s) {
            Some(n) => if lo <= n <= hi {
                Some(n)
            } else {
                None
            },
            None => None,
        }
    }
}

pub open spec fn digit_char(d: int) -> char {
    (d + ('0' as int)) as char
}

/// Decimal digits of a natural number, without leading zeros.
pub open spec fn nat_text(n: nat) -> Seq<char>
    decreases n,
{
    if n < 10 {
        seq![digit_char(n as int)]
    } else {
        nat_text(n / 10).push(digit_char((n % 10) as int))
    }
}

/// Decimal text of an integer, as `Display` writes it.
pub open spec fn int_text(n: int) -> Seq<char> {
    if n < 0 {
        seq!['-'] + nat_text((-n) as nat)
    } else {
        nat_text(n as nat)
    }
}

/// The character sequences held by a vector of vectors.
pub open spec fn views(v: Seq<Vec<char>>) -> Seq<Seq<char>> {
    v.map_values(|x: Vec<char>| x@)
}

/// Joins the pieces with `sep` between them.
pub open spec fn join(pieces: Seq<Seq<char>>, sep: Seq<char>) -> Seq<char>
    decreases pieces.len(),
{
    if pieces.len() == 0 {
        seq![]
    } else if pieces.len() == 1 {
        pieces[0]
    } else {
        join(pieces.drop_last(), sep) + sep + pieces.last()
    }
}

// ---- conversions ----

/// The characters of `s`.
pub fn chars_of(s: &str) -> (v: Vec<char>)
    ensures
        v@ == s@,
{
    let mut v: Vec<char> = Vec::new();
    for c in it: s.chars()
        invariant
            it.seq() == s@,
            v@ == it.seq().take(it.index() as int),
    {
        v.push(c);
    }
    v
}

/// Wraps `String::from_iter`: the string holding exactly the given characters.
#[verifier::external_body]
pub(crate) fn string_of(v: &[char]) -> (s: String)
    ensures
        s@ == v@,
{
    String::from_iter(v.iter())
}

pub fn subvec(v: &Vec<char>, lo: usize, hi: usize) -> (r: Vec<char>)
    requires
        lo <= hi <= v.len(),
    ensures
        r@ == v@.subrange(lo as int, hi as int),
{
    let mut r: Vec<char> = Vec::new();
    let mut i = lo;
    while i < hi
        invariant
            lo <= i <= hi <= v.len(),
            r@ == v@.subrange(lo as int, i as int),
        decreases hi - i,
    {
        r.push(v[i]);
        i += 1;
    }
    r
}

pub fn concat(a: &Vec<char>, b: &Vec<char>) -> (r: Vec<char>)
    ensures
        r@ == a@ + b@,
{
    let mut r = a.clone();
    let mut i: usize = 0;
    while i < b.len()
        invariant
            i <= b.len(),
            r@ == a@ + b@.take(i as int),
        decreases b.len() - i,
    {
        r.push(b[i]);
        i += 1;
    }
    r
}

pub fn seq_eq(a: &Vec<char>, b: &Vec<char>) -> (r: bool)
    ensures
        r == (a@ == b@),
{
    if a.len() != b.len() {
        return false;
    }
    let mut i: usize = 0;
    while i < a.len()
        invariant
            a.len() == b.len(),
            i <= a.len(),
            forall|j: int| 0 <= j < i ==> a@[j] == b@[j],
        decreases a.len() - i,
    {
        if a[i] != b[i] {
            return false;
        }
        i += 1;
    }
    assert(a@ =~= b@);
    true
}

/// `a` equals the string `b`.
pub fn eq_str(a: &Vec<char>, b: &str) -> (r: bool)
    ensures
        r == (a@ == b@),
{
    let bv = chars_of(b);
    seq_eq(a, &bv)
}

/// `v` begins with the string `lit`.
pub fn starts_with_str(v: &Vec<char>, lit: &str) -> (r: bool)
    ensures
        r == (v@.len() >= lit@.len() && v@.take(lit@.len() as int) == lit@),
{
    let l = chars_of(lit);
    if v.len() < l.len() {
        return false;
    }
    let head = subvec(v, 0, l.len());
    proof {
        assert(head@ =~= v@.take(l@.len() as int));
    }
    seq_eq(&head, &l)
}

// ---- whitespace ----

pub fn is_whitespace(c: char) -> (r: bool)
    ensures
        r == is_ws(c),
{
    c == ' ' || ('\t' <= c && c <= '\r') || c == '\u{85}' || c == '\u{a0}' || c == '\u{1680}'
        || ('\u{2000}' <= c && c <= '\u{200a}') || c == '\u{2028}' || c == '\u{2029}' || c
        == '\u{202f}' || c == '\u{205f}' || c == '\u{3000}'
}

proof fn lemma_trim_start_skip(s: Seq<char>, i: int)
    requires
        0 <= i <= s.len(),
        forall|j: int| 0 <= j < i ==> is_ws(#[trigger] s[j]),
    ensures
        trim_start(s) == trim_start(s.skip(i)),
    decreases i,
{
    if i > 0 {
        assert(s.skip(1) =~= s.drop_first());
        lemma_trim_start_skip(s.drop_first(), i - 1);
        assert(s.drop_first().skip(i - 1) =~= s.skip(i));
    } else {
        assert(s.skip(0) =~= s);
    }
}

proof fn lemma_trim_end_take(s: Seq<char>, k: int)
    requires
        0 <= k <= s.len(),
        forall|j: int| k <= j < s.len() ==> is_ws(#[trigger] s[j]),
    ensures
        trim_end(s) == trim_end(s.take(k)),
    decreases s.len() - k,
{
    if k < s.len() {
        assert(s.drop_last().take(k) =~= s.take(k));
        lemma_trim_end_take(s.drop_last(), k);
    } else {
        assert(s.take(k) =~= s);
    }
}

pub fn trim_start_vec(v: &Vec<char>) -> (r: Vec<char>)
    ensures
        r@ == trim_start(v@),
{
    let mut i: usize = 0;
    while i < v.len() && is_whitespace(v[i])
        invariant
            i <= v.len(),
            forall|j: int| 0 <= j < i ==> is_ws(#[trigger] v@[j]),
        decreases v.len() - i,
    {
        i += 1;
    }
    proof {
        lemma_trim_start_skip(v@, i as int);
        let t = v@.skip(i as int);
        assert(t =~= v@.subrange(i as int, v.len() as int));
        if t.len() > 0 {
            assert(t[0] == v@[i as int]);
        }
    }
    subvec(v, i, v.len())
}

pub fn trim_end_vec(v: &Vec<char>) -> (r: Vec<char>)
    ensures
        r@ == trim_end(v@),
{
    let mut k: usize = v.len();
    while k > 0 && is_whitespace(v[k - 1])
        invariant
            k <= v.len(),
            forall|j: int| k <= j < v.len() ==> is_ws(#[trigger] v@[j]),
        decreases k,
    {
        k -= 1;
    }
    proof {
        lemma_trim_end_take(v@, k as int);
        let t = v@.take(k as int);
        assert(t =~= v@.subrange(0, k as int));
    }
    subvec(v, 0, k)
}

pub fn trim_vec(v: &Vec<char>) -> (r: Vec<char>)
    ensures
        r@ == trim(v@),
{
    let a = trim_start_vec(v);
    trim_end_vec(&a)
}

pub fn to_upper_vec(v: &Vec<char>) -> (r: Vec<char>)
    ensures
        r@ == to_upper(v@),
{
    let mut r: Vec<char> = Vec::new();
    let mut i: usize = 0;
    while i < v.len()
        invariant
            i <= v.len(),
            r@ == to_upper(v@.take(i as int)),
        decreases v.len() - i,
    {
        let c = v[i];
        let u = if 'a' <= c && c <= 'z' {
            char_sub_32(c)
        } else {
            c
        };
        r.push(u);
        proof {
            assert(v@.take(i + 1) =~= v@.take(i as int).push(c));
            assert(to_upper(v@.take(i + 1)) =~= to_upper(v@.take(i as int)).push(upper_char(c)));
        }
        i += 1;
    }
    proof {
        assert(v@.take(v.len() as int) =~= v@);
    }
    r
}

fn char_sub_32(c: char) -> (r: char)
    requires
        'a' <= c && c <= 'z',
    ensures
        r == ((c as u32) - 32) as char,
{
    let n: u8 = ((c as u32) - 32) as u8;
    n as char
}

// ---- searching and splitting ----

proof fn lemma_find_char_prefix(s: Seq<char>, c: char, i: int)
    requires
        0 <= i <= s.len(),
        forall|j: int| 0 <= j < i ==> s[j] != c,
    ensures
        find_char(s, c) == (match find_char(s.skip(i), c) {
            Some(k) => Some(k + i),
            None => None::<int>,
        }),
    decreases i,
{
    if i == 0 {
        assert(s.skip(0) =~= s);
    } else {
        lemma_find_char_prefix(s.drop_first(), c, i - 1);
        assert(s.drop_first().skip(i - 1) =~= s.skip(i));
    }
}

proof fn lemma_find_char_bounds(s: Seq<char>, c: char)
    ensures
        find_char(s, c) matches Some(i) ==> 0 <= i < s.len() && s[i] == c && forall|j: int|
            0 <= j < i ==> s[j] != c,
        find_char(s, c) is None ==> forall|j: int| 0 <= j < s.len() ==> s[j] != c,
    decreases s.len(),
{
    if s.len() > 0 {
        lemma_find_char_bounds(s.drop_first(), c);
        if s[0] != c {
            assert forall|j: int| 1 <= j < s.len() implies s[j] == s.drop_first()[j - 1] by {}
        }
    }
}

/// Position of the first `c` in `v` at or after `from`.
pub fn find_from(v: &Vec<char>, c: char, from: usize) -> (r: Option<usize>)
    requires
        from <= v.len(),
    ensures
        r == (match find_char(v@.skip(from as int), c) {
            Some(k) => Some((k + from) as usize),
            None => None::<usize>,
        }),
        r matches Some(k) ==> from <= k < v.len(),
{
    let mut i = from;
    while i < v.len()
        invariant
            from <= i <= v.len(),
            forall|j: int| from <= j < i ==> v@[j] != c,
        decreases v.len() - i,
    {
        if v[i] == c {
            proof {
                let s = v@.skip(from as int);
                lemma_find_char_prefix(s, c, i - from);
                assert(s.skip(i - from) =~= v@.skip(i as int));
                assert(v@.skip(i as int)[0] == c);
            }
            return Some(i);
        }
        i += 1;
    }
    proof {
        let s = v@.skip(from as int);
        lemma_find_char_prefix(s, c, i - from);
        assert(s.skip(i - from) =~= Seq::<char>::empty());
    }
    None
}

pub fn split_once_vec(v: &Vec<char>, c: char) -> (r: Option<(Vec<char>, Vec<char>)>)
    ensures
        r matches Some(p) ==> split_once(v@, c) == Some((p.0@, p.1@)),
        r is None ==> split_once(v@, c) is None,
{
    proof {
        assert(v@.skip(0) =~= v@);
        lemma_find_char_bounds(v@, c);
    }
    match find_from(v, c, 0) {
        Some(i) => {
            let a = subvec(v, 0, i);
            let b = subvec(v, i + 1, v.len());
            proof {
                assert(a@ =~= v@.take(i as int));
                assert(b@ =~= v@.skip(i + 1));
            }
            Some((a, b))
        },
        None => None,
    }
}

pub fn split_vec(v: &Vec<char>, c: char) -> (r: Vec<Vec<char>>)
    ensures
        views(r@) == split(v@, c),
{
    let mut out: Vec<Vec<char>> = Vec::new();
    let mut start: usize = 0;
    proof {
        assert(v@.skip(0) =~= v@);
        assert(views(out@) =~= Seq::<Seq<char>>::empty());
    }
    loop
        invariant
            start <= v.len(),
            views(out@) + split(v@.skip(start as int), c) == split(v@, c),
        decreases v.len() - start,
    {
        let ghost rest = v@.skip(start as int);
        proof {
            lemma_find_char_bounds(rest, c);
        }
        match find_from(v, c, start) {
            Some(i) => {
                let piece = subvec(v, start, i);
                proof {
                    let k = i - start;
                    assert(piece@ =~= rest.take(k));
                    assert(rest.skip(k + 1) =~= v@.skip(i + 1));
                    assert(split(rest, c) == seq![rest.take(k)] + split(rest.skip(k + 1), c));
                    assert(views(out@).push(piece@) + split(v@.skip(i + 1), c) =~= views(out@)
                        + split(rest, c));
                }
                let ghost prev = views(out@);
                out.push(piece);
                proof {
                    assert(views(out@) =~= prev.push(piece@));
                }
                start = i + 1;
            },
            None => {
                let piece = subvec(v, start, v.len());
                proof {
                    assert(piece@ =~= rest);
                    assert(split(rest, c) == seq![rest]);
                }
                let ghost prev = views(out@);
                out.push(piece);
                proof {
                    assert(views(out@) =~= prev.push(piece@));
                    assert(views(out@) =~= prev + split(rest, c));
                }
                return out;
            },
        }
    }
}

// ---- decimal integers ----

fn digit_of(c: char) -> (r: u32)
    requires
        is_digit(c),
    ensures
        r == digit_value(c),
{
    (c as u32) - ('0' as u32)
}

fn char_of_digit(d: u32) -> (r: char)
    requires
        d < 10,
    ensures
        r == digit_char(d as int),
        is_digit(r),
        digit_value(r) == d,
{
    match d {
        0 => '0',
        1 => '1',
        2 => '2',
        3 => '3',
        4 => '4',
        5 => '5',
        6 => '6',
        7 => '7',
        8 => '8',
        _ => '9',
    }
}

proof fn lemma_digits_value_nonneg(s: Seq<char>)
    requires
        all_digits(s),
    ensures
        digits_value(s) >= 0,
    decreases s.len(),
{
    if s.len() > 0 {
        assert(all_digits(s.drop_last()));
        lemma_digits_value_nonneg(s.drop_last());
    }
}

/// Reads a decimal integer from `v[from..]` as `str::parse` would for an
/// integer type with values `lo..=hi`.
pub fn parse_int(v: &Vec<char>, lo: i128, hi: i128) -> (r: Option<i128>)
    requires
        -0x1_0000_0000_0000_0000 <= lo <= hi <= 0x1_0000_0000_0000_0000,
    ensures
        r matches Some(n) ==> parse_in_range(v@, lo as int, hi as int) == Some(n as int),
        r is None ==> parse_in_range(v@, lo as int, hi as int) is None,
{
    let len = v.len();
    if len == 0 {
        return None;
    }
    if lo >= 0 && v[0] == '-' {
        return None;
    }
    let signed = v[0] == '+' || v[0] == '-';
    let neg = v[0] == '-';
    let start: usize = if signed { 1 } else { 0 };
    if start >= len {
        return None;
    }
    let ghost body = v@.skip(start as int);
    let bound: i128 = 0x2_0000_0000_0000_0000;
    let mut acc: i128 = 0;
    let mut big = false;
    let mut i = start;
    while i < len
        invariant
            start <= i <= len,
            len == v.len(),
            start < len,
            start == 0 || start == 1,
            start == 1 <==> (v@[0] == '+' || v@[0] == '-'),
            body == v@.skip(start as int),
            bound == 0x2_0000_0000_0000_0000,
            all_digits(v@.subrange(start as int, i as int)),
            !big ==> acc == digits_value(v@.subrange(start as int, i as int)),
            !big ==> 0 <= acc <= bound,
            big ==> digits_value(v@.subrange(start as int, i as int)) > bound,
        decreases len - i,
    {
        let c = v[i];
        if !('0' <= c && c <= '9') {
            proof {
                assert(!all_digits(v@.skip(start as int))) by {
                    assert(v@.skip(start as int)[i - start] == c);
                }
                if start == 1 {
                    assert(body =~= v@.drop_first());
                } else {
                    assert(body =~= v@);
                }
            }
            return None;
        }
        let ghost pre = v@.subrange(start as int, i as int);
        let ghost now = v@.subrange(start as int, i + 1);
        proof {
            assert(now.drop_last() =~= pre);
            assert(now.last() == c);
            lemma_digits_value_nonneg(pre);
            assert forall|j: int| 0 <= j < now.len() implies is_digit(#[trigger] now[j]) by {
                if j < pre.len() {
                    assert(now[j] == pre[j]);
                }
            }
        }
        let d = digit_of(c);
        if !big {
            let next = acc * 10 + d as i128;
            if next > bound {
                big = true;
            } else {
                acc = next;
            }
        } else {
            proof {
                assert(digits_value(now) == digits_value(pre) * 10 + d);
            }
        }
        i += 1;
    }
    proof {
        assert(v@.subrange(start as int, len as int) =~= body);
        if start == 1 {
            assert(body =~= v@.drop_first());
        } else {
            assert(body =~= v@);
        }
    }
    if big {
        return None;
    }
    let n: i128 = if neg { -acc } else { acc };
    if lo <= n && n <= hi {
        Some(n)
    } else {
        None
    }
}

fn nat_digits(n: u64) -> (r: Vec<char>)
    ensures
        r@ == nat_text(n as nat),
    decreases n,
{
    if n < 10 {
        let mut v: Vec<char> = Vec::new();
        v.push(char_of_digit(n as u32));
        v
    } else {
        let mut v = nat_digits(n / 10);
        v.push(char_of_digit((n % 10) as u32));
        v
    }
}

/// Decimal text of `n`.
pub fn int_to_vec(n: i64) -> (r: Vec<char>)
    ensures
        r@ == int_text(n as int),
{
    if n < 0 {
        let m: u64 = if n == i64::MIN {
            0x8000_0000_0000_0000
        } else {
            (-n) as u64
        };
        let d = nat_digits(m);
        let mut v: Vec<char> = Vec::new();
        v.push('-');
        let r = concat(&v, &d);
        assert(v@ =~= seq!['-']);
        r
    } else {
        nat_digits(n as u64)
    }
}

// ---- more searching ----

/// Index of the last `->` in `s`, if any.
pub open spec fn rfind_arrow(s: Seq<char>) -> Option<int>
    decreases s.len(),
{
    if s.len() < 2 {
        None
    } else if s[s.len() - 2] == '-' && s[s.len() - 1] == '>' {
        Some(s.len() - 2)
    } else {
        rfind_arrow(s.drop_last())
    }
}

/// `str::rsplit_once("->")`: the text before and after the last arrow.
pub open spec fn rsplit_arrow(s: Seq<char>) -> Option<(Seq<char>, Seq<char>)> {
    match rfind_arrow(s) {
        Some(i) => Some((s.take(i), s.skip(i + 2))),
        None => None,
    }
}

/// Index of the first whitespace character, if any.
pub open spec fn find_ws(s: Seq<char>) -> Option<int>
    decreases s.len(),
{
    if s.len() == 0 {
        None
    } else if is_ws(s[0]) {
        Some(0)
    } else {
        match find_ws(s.drop_first()) {
            Some(i) => Some(i + 1),
            None => None,
        }
    }
}

/// `str::split_once(char::is_whitespace)`.
pub open spec fn split_once_ws(s: Seq<char>) -> Option<(Seq<char>, Seq<char>)> {
    match find_ws(s) {
        Some(i) => Some((s.take(i), s.skip(i + 1))),
        None => None,
    }
}

pub proof fn lemma_rfind_arrow(s: Seq<char>)
    ensures
        rfind_arrow(s) matches Some(i) ==> 0 <= i && i + 2 <= s.len() && s[i] == '-' && s[i + 1]
            == '>',
    decreases s.len(),
{
    if s.len() >= 2 && !(s[s.len() - 2] == '-' && s[s.len() - 1] == '>') {
        lemma_rfind_arrow(s.drop_last());
    }
}

pub fn rsplit_arrow_vec(v: &Vec<char>) -> (r: Option<(Vec<char>, Vec<char>)>)
    ensures
        r matches Some(p) ==> rsplit_arrow(v@) == Some((p.0@, p.1@)),
        r is None ==> rsplit_arrow(v@) is None,
{
    let mut k: usize = v.len();
    proof {
        assert(v@.take(k as int) =~= v@);
    }
    while k >= 2 && !(v[k - 2] == '-' && v[k - 1] == '>')
        invariant
            k <= v.len(),
            rfind_arrow(v@) == rfind_arrow(v@.take(k as int)),
        decreases k,
    {
        proof {
            assert(v@.take(k as int).drop_last() =~= v@.take(k - 1));
        }
        k -= 1;
    }
    proof {
        lemma_rfind_arrow(v@);
    }
    if k >= 2 {
        let a = subvec(v, 0, k - 2);
        let b = subvec(v, k, v.len());
        proof {
            assert(v@.take(k as int)[k - 2] == v@[k - 2]);
            assert(a@ =~= v@.take(k - 2));
            assert(b@ =~= v@.skip(k as int));
        }
        Some((a, b))
    } else {
        None
    }
}

proof fn lemma_find_ws_prefix(s: Seq<char>, i: int)
    requires
        0 <= i <= s.len(),
        forall|j: int| 0 <= j < i ==> !is_ws(#[trigger] s[j]),
    ensures
        find_ws(s) == (match find_ws(s.skip(i)) {
            Some(k) => Some(k + i),
            None => None::<int>,
        }),
    decreases i,
{
    if i == 0 {
        assert(s.skip(0) =~= s);
    } else {
        lemma_find_ws_prefix(s.drop_first(), i - 1);
        assert(s.drop_first().skip(i - 1) =~= s.skip(i));
    }
}

pub fn split_once_ws_vec(v: &Vec<char>) -> (r: Option<(Vec<char>, Vec<char>)>)
    ensures
        r matches Some(p) ==> split_once_ws(v@) == Some((p.0@, p.1@)),
        r is None ==> split_once_ws(v@) is None,
{
    let mut i: usize = 0;
    while i < v.len() && !is_whitespace(v[i])
        invariant
            i <= v.len(),
            forall|j: int| 0 <= j < i ==> !is_ws(#[trigger] v@[j]),
        decreases v.len() - i,
    {
        i += 1;
    }
    proof {
        lemma_find_ws_prefix(v@, i as int);
    }
    if i < v.len() {
        let a = subvec(v, 0, i);
        let b = subvec(v, i + 1, v.len());
        proof {
            assert(v@.skip(i as int)[0] == v@[i as int]);
            assert(a@ =~= v@.take(i as int));
            assert(b@ =~= v@.skip(i + 1));
        }
        Some((a, b))
    } else {
        proof {
            assert(v@.skip(i as int) =~= Seq::<char>::empty());
        }
        None
    }
}

/// UTF-8 length of a character.
pub open spec fn char_width(c: char) -> int {
    if (c as u32) < 0x80 {
        1
    } else if (c as u32) < 0x800 {
        2
    } else if (c as u32) < 0x10000 {
        3
    } else {
        4
    }
}

/// UTF-8 length of a text.
pub open spec fn byte_len(s: Seq<char>) -> int
    decreases s.len(),
{
    if s.len() == 0 {
        0
    } else {
        byte_len(s.drop_last()) + char_width(s.last())
    }
}

/// `str::get(..n).unwrap_or(s)`: the prefix of exactly `n` bytes if one
/// ends on a character boundary, else the whole text.
pub open spec fn byte_prefix_or_all(s: Seq<char>, n: int) -> Seq<char> {
    if exists|k: int| 0 <= k <= s.len() && #[trigger] byte_len(s.take(k)) == n {
        s.take(choose|k: int| 0 <= k <= s.len() && #[trigger] byte_len(s.take(k)) == n)
    } else {
        s
    }
}

fn width_of(c: char) -> (r: usize)
    ensures
        r == char_width(c),
{
    let n = c as u32;
    if n < 0x80 {
        1
    } else if n < 0x800 {
        2
    } else if n < 0x10000 {
        3
    } else {
        4
    }
}

proof fn lemma_byte_len_monotone(s: Seq<char>, a: int, b: int)
    requires
        0 <= a < b <= s.len(),
    ensures
        byte_len(s.take(a)) < byte_len(s.take(b)),
    decreases b - a,
{
    assert(s.take(b).drop_last() =~= s.take(b - 1));
    if a < b - 1 {
        lemma_byte_len_monotone(s, a, b - 1);
    }
}

pub fn byte_prefix_vec(v: &Vec<char>, n: usize) -> (r: Vec<char>)
    requires
        n <= 1024,
    ensures
        r@ == byte_prefix_or_all(v@, n as int),
{
    let mut k: usize = 0;
    let mut bytes: usize = 0;
    while k < v.len() && bytes < n
        invariant
            k <= v.len(),
            bytes == byte_len(v@.take(k as int)),
            n <= 1024,
            bytes <= n + 4,
            forall|j: int| 0 <= j < k ==> byte_len(v@.take(j)) < n,
        decreases v.len() - k,
    {
        proof {
            assert(v@.take(k + 1).drop_last() =~= v@.take(k as int));
        }
        bytes = bytes + width_of(v[k]);
        k += 1;
    }
    if bytes == n {
        proof {
            let w = choose|j: int| 0 <= j <= v@.len() && #[trigger] byte_len(v@.take(j)) == n;
            if w < k {
                lemma_byte_len_monotone(v@, w, k as int);
            } else if w > k {
                lemma_byte_len_monotone(v@, k as int, w);
            }
            assert(subvec_spec_helper(v@, k as int));
        }
        subvec(v, 0, k)
    } else {
        proof {
            assert forall|j: int| 0 <= j <= v@.len() implies #[trigger] byte_len(v@.take(j)) != n by {
                if j < k {
                } else if j > k {
                    lemma_byte_len_monotone(v@, k as int, j);
                    if k < v@.len() {
                        // the walk stopped because the prefix already reached n bytes
                    }
                }
            }
        }
        v.clone()
    }
}

spec fn subvec_spec_helper(s: Seq<char>, k: int) -> bool {
    s.subrange(0, k) == s.take(k)
}

pub proof fn lemma_split_len(s: Seq<char>, c: char)
    ensures
        split(s, c).len() >= 1,
    decreases s.len(),
{
    match find_char(s, c) {
        Some(i) => {
            if 0 <= i < s.len() {
                lemma_split_len(s.skip(i + 1), c);
            }
        },
        None => {},
    }
}


// ---- facts about the text functions on joined texts ----

pub open spec fn all_ws(s: Seq<char>) -> bool {
    forall|i: int| 0 <= i < s.len() ==> is_ws(#[trigger] s[i])
}

pub open spec fn no_ws(s: Seq<char>) -> bool {
    forall|i: int| 0 <= i < s.len() ==> !is_ws(#[trigger] s[i])
}

pub open spec fn no_char(s: Seq<char>, c: char) -> bool {
    forall|i: int| 0 <= i < s.len() ==> #[trigger] s[i] != c
}

pub proof fn lemma_trim_start_skip_ws(w: Seq<char>, z: Seq<char>)
    requires
        all_ws(w),
    ensures
        trim_start(w + z) == trim_start(z),
    decreases w.len(),
{
    if w.len() == 0 {
        assert(w + z =~= z);
    } else {
        assert((w + z)[0] == w[0]);
        assert((w + z).drop_first() =~= w.drop_first() + z);
        lemma_trim_start_skip_ws(w.drop_first(), z);
    }
}

pub proof fn lemma_trim_start_stop(z: Seq<char>)
    requires
        z.len() == 0 || !is_ws(z[0]),
    ensures
        trim_start(z) == z,
{
}

pub proof fn lemma_trim_end_skip_ws(z: Seq<char>, w: Seq<char>)
    requires
        all_ws(w),
    ensures
        trim_end(z + w) == trim_end(z),
    decreases w.len(),
{
    if w.len() == 0 {
        assert(z + w =~= z);
    } else {
        assert((z + w).last() == w.last());
        assert((z + w).drop_last() =~= z + w.drop_last());
        lemma_trim_end_skip_ws(z, w.drop_last());
    }
}

pub proof fn lemma_trim_end_stop(z: Seq<char>)
    requires
        z.len() == 0 || !is_ws(z.last()),
    ensures
        trim_end(z) == z,
{
}

pub proof fn lemma_find_ws_after(a: Seq<char>, b: Seq<char>)
    requires
        no_ws(a),
    ensures
        find_ws(a + b) == (match find_ws(b) {
            Some(k) => Some(k + a.len()),
            None => None::<int>,
        }),
{
    lemma_find_ws_prefix(a + b, a.len() as int);
    assert((a + b).skip(a.len() as int) =~= b);
}

/// An arrow cannot end inside a text without `>`.
pub proof fn lemma_rfind_arrow_suffix(a: Seq<char>, b: Seq<char>)
    requires
        no_char(b, '>'),
    ensures
        rfind_arrow(a + b) == rfind_arrow(a),
    decreases b.len(),
{
    if b.len() == 0 {
        assert(a + b =~= a);
    } else {
        assert((a + b)[(a + b).len() - 1] == b[b.len() - 1]);
        assert((a + b).drop_last() =~= a + b.drop_last());
        lemma_rfind_arrow_suffix(a, b.drop_last());
    }
}

/// A prefix without `>` that does not end in `-` shifts the last arrow.
pub proof fn lemma_rfind_arrow_prefix(x: Seq<char>, b: Seq<char>)
    requires
        no_char(x, '>'),
        x.len() > 0 ==> x.last() != '-',
    ensures
        rfind_arrow(x + b) == (match rfind_arrow(b) {
            Some(k) => Some(k + x.len()),
            None => None::<int>,
        }),
    decreases b.len(),
{
    if b.len() == 0 {
        assert(x + b =~= x);
        lemma_rfind_arrow_suffix(seq![], x);
        assert(seq![] + x =~= x);
    } else if b.len() == 1 {
        let s = x + b;
        assert(s[s.len() - 1] == b[0]);
        if x.len() > 0 {
            assert(s[s.len() - 2] == x.last());
        }
        assert(s.drop_last() =~= x);
        lemma_rfind_arrow_suffix(seq![], x);
        assert(seq![] + x =~= x);
        assert(b.drop_last() =~= Seq::<char>::empty());
    } else {
        let s = x + b;
        assert(s[s.len() - 1] == b[b.len() - 1]);
        assert(s[s.len() - 2] == b[b.len() - 2]);
        assert(s.drop_last() =~= x + b.drop_last());
        lemma_rfind_arrow_prefix(x, b.drop_last());
    }
}

pub open spec fn ascii(s: Seq<char>) -> bool {
    forall|i: int| 0 <= i < s.len() ==> (#[trigger] s[i] as u32) < 0x80
}

pub proof fn lemma_ascii_byte_len(s: Seq<char>)
    requires
        ascii(s),
    ensures
        byte_len(s) == s.len(),
    decreases s.len(),
{
    if s.len() > 0 {
        assert(ascii(s.drop_last()));
        lemma_ascii_byte_len(s.drop_last());
    }
}

/// For ASCII text, a byte prefix is a character prefix.
pub proof fn lemma_ascii_byte_prefix(s: Seq<char>)
    requires
        ascii(s),
    ensures
        byte_prefix_or_all(s, s.len() as int) == s,
{
    assert(s.take(s.len() as int) =~= s);
    lemma_ascii_byte_len(s);
    assert(byte_len(s.take(s.len() as int)) == s.len());
    let k = choose|k: int| 0 <= k <= s.len() && #[trigger] byte_len(s.take(k)) == s.len();
    assert(ascii(s.take(k)));
    lemma_ascii_byte_len(s.take(k));
}


pub proof fn lemma_find_char_after(a: Seq<char>, b: Seq<char>, c: char)
    requires
        no_char(a, c),
    ensures
        find_char(a + b, c) == (match find_char(b, c) {
            Some(k) => Some(k + a.len()),
            None => None::<int>,
        }),
    decreases a.len(),
{
    if a.len() == 0 {
        assert(a + b =~= b);
    } else {
        assert((a + b)[0] == a[0]);
        assert((a + b).drop_first() =~= a.drop_first() + b);
        lemma_find_char_after(a.drop_first(), b, c);
    }
}

/// Splitting at `c` a piece without `c`, then `c`, then the rest.
pub proof fn lemma_split_piece(l: Seq<char>, q: Seq<char>, c: char)
    requires
        no_char(l, c),
    ensures
        split(l + seq![c] + q, c) == seq![l] + split(q, c),
{
    let s = l + seq![c] + q;
    assert(s =~= l + (seq![c] + q));
    lemma_find_char_after(l, seq![c] + q, c);
    assert((seq![c] + q)[0] == c);
    assert(s.take(l.len() as int) =~= l);
    assert(s.skip(l.len() as int + 1) =~= q);
}


// ---- decimal text read back ----

pub proof fn lemma_nat_text(n: nat)
    ensures
        nat_text(n).len() > 0,
        all_digits(nat_text(n)),
        digits_value(nat_text(n)) == n,
    decreases n,
{
    if n >= 10 {
        lemma_nat_text(n / 10);
        let t = nat_text(n / 10);
        let d = digit_char((n % 10) as int);
        assert(nat_text(n) == t.push(d));
        assert(t.push(d).drop_last() =~= t);
        assert(digit_value(d) == n % 10);
        assert((n / 10) * 10 + n % 10 == n) by (nonlinear_arith);
        assert(digits_value(t.push(d)) == digits_value(t) * 10 + digit_value(d));
        assert forall|i: int| 0 <= i < t.push(d).len() implies is_digit(#[trigger] t.push(d)[i]) by {
            if i < t.len() {
                assert(t.push(d)[i] == t[i]);
            }
        }
        assert(digits_value(t) * 10 + digit_value(d) == n);
    } else {
        let t = nat_text(n);
        assert(t.drop_last() =~= Seq::<char>::empty());
        assert(digit_value(t.last()) == n);
        assert(digits_value(t.drop_last()) == 0);
        assert(digits_value(t) == digits_value(t.drop_last()) * 10 + digit_value(t.last()));
    }
}

/// Decimal text of an integer: digits, after a `-` for a negative one.
pub proof fn lemma_int_text_chars(n: int)
    ensures
        int_text(n).len() > 0,
        forall|i: int|
            0 <= i < int_text(n).len() ==> is_digit(#[trigger] int_text(n)[i]) || (i == 0 && n < 0
                && int_text(n)[i] == '-'),
        is_digit(int_text(n).last()),
        n >= 0 ==> is_digit(int_text(n)[0]),
{
    if n < 0 {
        lemma_nat_text((-n) as nat);
        let t = nat_text((-n) as nat);
        assert forall|i: int| 0 <= i < int_text(n).len() implies is_digit(#[trigger] int_text(n)[i])
            || (i == 0 && n < 0 && int_text(n)[i] == '-') by {
            if i > 0 {
                assert(int_text(n)[i] == t[i - 1]);
            }
        }
        assert(int_text(n).last() == t.last());
    } else {
        lemma_nat_text(n as nat);
    }
}

/// `FromStr` reads back the decimal text of an integer in its range.
pub proof fn lemma_parse_int_text(n: int, lo: int, hi: int)
    requires
        lo <= n <= hi,
    ensures
        parse_in_range(int_text(n), lo, hi) == Some(n),
{
    if n < 0 {
        lemma_nat_text((-n) as nat);
        let t = nat_text((-n) as nat);
        assert(int_text(n).drop_first() =~= t);
    } else {
        lemma_nat_text(n as nat);
        let t = nat_text(n as nat);
        assert(t[0] != '-' && t[0] != '+') by {
            assert(is_digit(t[0]));
        }
    }
}

// ---- joined pieces split back ----

pub proof fn lemma_join_front(p: Seq<Seq<char>>, sep: Seq<char>)
    requires
        p.len() >= 2,
    ensures
        join(p, sep) == p[0] + sep + join(p.drop_first(), sep),
    decreases p.len(),
{
    if p.len() == 2 {
        assert(p.drop_last().len() == 1);
        assert(join(p.drop_last(), sep) == p.drop_last()[0]);
        assert(p.drop_last()[0] == p[0]);
        assert(p.drop_first().len() == 1);
        assert(join(p.drop_first(), sep) == p.drop_first()[0]);
        assert(p.drop_first()[0] == p[1]);
        assert(join(p, sep) == join(p.drop_last(), sep) + sep + p.last());
    } else {
        lemma_join_front(p.drop_last(), sep);
        assert(p.drop_last().drop_first() =~= p.drop_first().drop_last());
        assert(p.drop_first().last() == p.last());
        assert(p.drop_last()[0] == p[0]);
        let a = join(p.drop_first().drop_last(), sep);
        assert(join(p.drop_first(), sep) == a + sep + p.last());
        assert(join(p, sep) == (p[0] + sep + a) + sep + p.last());
        assert((p[0] + sep + a) + sep + p.last() =~= p[0] + sep + (a + sep + p.last()));
    }
}

/// Splitting at `c` what was joined with `c` gives the pieces back.
pub proof fn lemma_split_join(p: Seq<Seq<char>>, c: char)
    requires
        p.len() >= 1,
        forall|k: int| 0 <= k < p.len() ==> no_char(#[trigger] p[k], c),
    ensures
        split(join(p, seq![c]), c) == p,
    decreases p.len(),
{
    if p.len() == 1 {
        let s = p[0];
        lemma_find_char_after(s, Seq::<char>::empty(), c);
        assert(s + Seq::<char>::empty() =~= s);
        assert(split(s, c) =~= seq![s]);
        assert(p =~= seq![s]);
    } else {
        let r = p.drop_first();
        assert forall|k: int| 0 <= k < r.len() implies no_char(#[trigger] r[k], c) by {
            assert(r[k] == p[k + 1]);
        }
        lemma_split_join(r, c);
        lemma_join_front(p, seq![c]);
        lemma_split_piece(p[0], join(r, seq![c]), c);
        assert(seq![p[0]] + r =~= p);
    }
}

proof fn lemma_trim_start_len(s: Seq<char>)
    ensures
        trim_start(s).len() <= s.len(),
    decreases s.len(),
{
    if s.len() > 0 && is_ws(s[0]) {
        lemma_trim_start_len(s.drop_first());
    }
}

proof fn lemma_trim_end_len(s: Seq<char>)
    ensures
        trim_end(s).len() <= s.len(),
    decreases s.len(),
{
    if s.len() > 0 && is_ws(s.last()) {
        lemma_trim_end_len(s.drop_last());
    }
}

/// A nonempty text that is its own trim has no whitespace at its ends.
pub proof fn lemma_trimmed_ends(s: Seq<char>)
    requires
        trim(s) == s,
        s.len() > 0,
    ensures
        !is_ws(s[0]),
        !is_ws(s.last()),
{
    lemma_trim_start_len(s);
    if is_ws(s[0]) {
        lemma_trim_start_len(s.drop_first());
        lemma_trim_end_len(trim_start(s));
    } else {
        lemma_trim_end_len(s);
        if is_ws(s.last()) {
            lemma_trim_end_len(s.drop_last());
        }
    }
}

/// The first whitespace character lies inside the text.
pub proof fn lemma_find_ws_bounds(s: Seq<char>)
    ensures
        find_ws(s) matches Some(i) ==> 0 <= i < s.len(),
    decreases s.len(),
{
    if s.len() > 0 && !is_ws(s[0]) {
        lemma_find_ws_bounds(s.drop_first());
    }
}

/// A text whose ends are not whitespace is its own trim.
pub proof fn lemma_trim_plain(s: Seq<char>)
    requires
        s.len() > 0,
        !is_ws(s[0]),
        !is_ws(s.last()),
    ensures
        trim(s) == s,
{
    lemma_trim_start_stop(s);
    lemma_trim_end_stop(s);
}


/// The ends of joined pieces are the ends of the first and last pieces.
pub proof fn lemma_join_ends(p: Seq<Seq<char>>, sep: Seq<char>)
    requires
        p.len() >= 1,
        forall|k: int| 0 <= k < p.len() ==> (#[trigger] p[k]).len() > 0,
    ensures
        join(p, sep).len() > 0,
        join(p, sep)[0] == p[0][0],
        join(p, sep).last() == p.last().last(),
    decreases p.len(),
{
    if p.len() > 1 {
        lemma_join_ends(p.drop_last(), sep);
        assert(p.drop_last()[0] == p[0]);
        let a = join(p.drop_last(), sep);
        assert((a + sep + p.last())[0] == a[0]);
        assert(p.last().len() > 0);
        assert((a + sep + p.last()).last() == p.last().last());
    }
}

/// Every character of joined pieces is one of the pieces' or of the
/// separator's.
pub proof fn lemma_join_chars(p: Seq<Seq<char>>, sep: Seq<char>, ok: spec_fn(char) -> bool)
    requires
        forall|k: int, i: int| 0 <= k < p.len() && 0 <= i < p[k].len() ==> ok(#[trigger] p[k][i]),
        forall|i: int| 0 <= i < sep.len() ==> ok(#[trigger] sep[i]),
    ensures
        forall|i: int| 0 <= i < join(p, sep).len() ==> ok(#[trigger] join(p, sep)[i]),
    decreases p.len(),
{
    if p.len() == 1 {
        assert(join(p, sep) == p[0]);
    } else if p.len() > 1 {
        let q = p.drop_last();
        assert forall|k: int, i: int| 0 <= k < q.len() && 0 <= i < q[k].len() implies ok(
            #[trigger] q[k][i],
        ) by {
            assert(q[k] == p[k]);
        }
        lemma_join_chars(q, sep, ok);
        let a = join(q, sep);
        let l = p.last();
        assert forall|i: int| 0 <= i < join(p, sep).len() implies ok(#[trigger] join(p, sep)[i]) by {
            assert(join(p, sep) == a + sep + l);
            if i < a.len() {
                assert(join(p, sep)[i] == a[i]);
            } else if i < a.len() + sep.len() {
                assert(join(p, sep)[i] == sep[i - a.len()]);
            } else {
                assert(join(p, sep)[i] == l[i - a.len() - sep.len()]);
                assert(l == p[p.len() - 1]);
            }
        }
    }
}

/// Upper-case letters and other characters that are not lower-case letters
/// are their own upper case.
pub proof fn lemma_to_upper_same(s: Seq<char>)
    requires
        forall|i: int| 0 <= i < s.len() ==> !('a' <= #[trigger] s[i] && s[i] <= 'z'),
    ensures
        to_upper(s) == s,
{
    assert(to_upper(s) =~= s);
}

} // verus!
