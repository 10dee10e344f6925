use vstd::prelude::*;

verus! {

/// Whether `pat` stands in `text` at offset `i`.
pub open spec fn occurs_at(text: Seq<char>, pat: Seq<char>, i: int) -> bool {
    0 <= i && i + pat.len() <= text.len() && text.subrange(i, i + pat.len()) == pat
}

/// Whether `pat` stands anywhere in `text`.
pub open spec fn contains(text: Seq<char>, pat: Seq<char>) -> bool {
    exists|i: int| occurs_at(text, pat, i)
}

/// Whether `i` is the least offset at which `pat` stands in `text`.
pub open spec fn is_first_occurrence(text: Seq<char>, pat: Seq<char>, i: int) -> bool {
    occurs_at(text, pat, i) && forall|j: int| 0 <= j < i ==> !occurs_at(text, pat, j)
}

/// The least offset at which `pat` stands in `text`, if it stands there at all.
pub open spec fn first_index(text: Seq<char>, pat: Seq<char>) -> Option<int> {
    if contains(text, pat) {
        Some(choose|i: int| is_first_occurrence(text, pat, i))
    } else {
        None
    }
}

/// Below any occurrence there is a first one.
proof fn lemma_least_occurrence(text: Seq<char>, pat: Seq<char>, i: int)
    requires
        occurs_at(text, pat, i),
    ensures
        exists|k: int| 0 <= k <= i && is_first_occurrence(text, pat, k),
    decreases i,
{
    if exists|j: int| 0 <= j < i && occurs_at(text, pat, j) {
        let j = choose|j: int| 0 <= j < i && occurs_at(text, pat, j);
        lemma_least_occurrence(text, pat, j);
    } else {
        assert(is_first_occurrence(text, pat, i));
    }
}

/// `first_index` is `Some(i)` exactly for the least offset `i` of an occurrence, and
/// `None` exactly when there is no occurrence.
pub proof fn lemma_first_index(text: Seq<char>, pat: Seq<char>)
    ensures
        match first_index(text, pat) {
            Some(i) => is_first_occurrence(text, pat, i),
            None => forall|j: int| !occurs_at(text, pat, j),
        },
{
    if exists|i: int| occurs_at(text, pat, i) {
        let i = choose|i: int| occurs_at(text, pat, i);
        lemma_least_occurrence(text, pat, i);
    }
}

/// A first occurrence is what `first_index` names.
pub proof fn lemma_first_index_unique(text: Seq<char>, pat: Seq<char>, i: int)
    requires
        is_first_occurrence(text, pat, i),
    ensures
        first_index(text, pat) == Some(i),
{
    lemma_first_index(text, pat);
    let k = first_index(text, pat)->0;
    assert(is_first_occurrence(text, pat, k));
    if k < i {
        assert(!occurs_at(text, pat, k));
    } else if i < k {
        assert(!occurs_at(text, pat, i));
    }
}

/// The characters of a string, one element each.
pub fn to_chars(s: &str) -> (r: Vec<char>)
    ensures
        r@ == s@,
{
    let mut out: Vec<char> = Vec::new();
    for c in it: s.chars()
        invariant
            it.seq() == s@,
            out@ == it.seq().take(it.index() as int),
    {
        out.push(c);
    }
    assert(out@ == s@);
    out
}

/// Whether two strings hold the same characters.
pub fn str_eq(a: &str, b: &str) -> (r: bool)
    ensures
        r == (a@ == b@),
{
    broadcast use vstd::utf8::encode_utf8_decode_utf8;

    let x = a.as_bytes();
    let y = b.as_bytes();
    if x.len() != y.len() {
        return false;
    }
    let n = x.len();
    let mut i: usize = 0;
    while i < n
        invariant
            n == x@.len(),
            n == y@.len(),
            i <= n,
            x@.subrange(0, i as int) == y@.subrange(0, i as int),
            x@ == vstd::utf8::encode_utf8(a@),
            y@ == vstd::utf8::encode_utf8(b@),
        decreases n - i,
    {
        if x[i] != y[i] {
            assert(x@[i as int] != y@[i as int]);
            return false;
        }
        assert(x@.subrange(0, i + 1) == x@.subrange(0, i as int).push(x@[i as int]));
        assert(y@.subrange(0, i + 1) == y@.subrange(0, i as int).push(y@[i as int]));
        i += 1;
    }
    assert(x@ == x@.subrange(0, n as int));
    assert(y@ == y@.subrange(0, n as int));
    assert(vstd::utf8::decode_utf8(vstd::utf8::encode_utf8(a@)) == a@);
    assert(vstd::utf8::decode_utf8(vstd::utf8::encode_utf8(b@)) == b@);
    true
}

/// Whether `pat` stands in `text` at offset `at`.
fn matches_at(text: &Vec<char>, pat: &Vec<char>, at: usize) -> (r: bool)
    requires
        at + pat@.len() <= text@.len(),
    ensures
        r == occurs_at(text@, pat@, at as int),
{
    let n = text.len();
    let m = pat.len();
    let mut k: usize = 0;
    while k < m
        invariant
            n == text@.len(),
            m == pat@.len(),
            k <= m,
            at + m <= n,
            text@.subrange(at as int, at + k) == pat@.subrange(0, k as int),
        decreases m - k,
    {
        if text[at + k] != pat[k] {
            assert(text@.subrange(at as int, at + m)[k as int] != pat@[k as int]);
            return false;
        }
        assert(text@.subrange(at as int, at + k + 1) == text@.subrange(at as int, at + k).push(
            text@[at + k],
        ));
        assert(pat@.subrange(0, k + 1) == pat@.subrange(0, k as int).push(pat@[k as int]));
        k += 1;
    }
    assert(pat@ == pat@.subrange(0, m as int));
    true
}

/// The least offset at or after `from` at which `pat` stands in `text`.
pub fn find_from(text: &Vec<char>, pat: &Vec<char>, from: usize) -> (r: Option<usize>)
    requires
        from <= text@.len(),
    ensures
        match first_index(text@.skip(from as int), pat@) {
            Some(i) => r is Some && r->0 == from + i && 0 <= i && from + i + pat@.len()
                <= text@.len(),
            None => r is None,
        },
{
    let n = text.len();
    let m = pat.len();
    let ghost rest = text@.skip(from as int);
    if m > n - from {
        proof {
            lemma_first_index(rest, pat@);
        }
        return None;
    }
    let last = n - m;
    let mut i: usize = from;
    loop
        invariant
            n == text@.len(),
            m == pat@.len(),
            last == n - m,
            from <= i <= last,
            rest == text@.skip(from as int),
            forall|j: int| 0 <= j < i - from ==> !occurs_at(rest, pat@, j),
        decreases last - i,
    {
        assert(rest.subrange(i - from, i - from + m) == text@.subrange(i as int, i + m));
        if matches_at(text, pat, i) {
            proof {
                assert(is_first_occurrence(rest, pat@, i - from));
                lemma_first_index_unique(rest, pat@, i - from);
            }
            return Some(i);
        }
        if i == last {
            proof {
                lemma_first_index(rest, pat@);
            }
            return None;
        }
        i += 1;
    }
}

/// Whether `c` is white space: the code points that Unicode gives the property
/// `White_Space`.
pub open spec fn is_space(c: char) -> bool {
    let u = c as u32;
    ||| 0x09 <= u <= 0x0D
    ||| u == 0x20
    ||| u == 0x85
    ||| u == 0xA0
    ||| u == 0x1680
    ||| 0x2000 <= u <= 0x200A
    ||| u == 0x2028
    ||| u == 0x2029
    ||| u == 0x202F
    ||| u == 0x205F
    ||| u == 0x3000
}

/// `s` without the white space it starts with.
pub open spec fn trim_start(s: Seq<char>) -> Seq<char>
    decreases s.len(),
{
    if s.len() > 0 && is_space(s[0]) {
        trim_start(s.skip(1))
    } else {
        s
    }
}

/// `s` without the white space it ends with.
pub open spec fn trim_end(s: Seq<char>) -> Seq<char>
    decreases s.len(),
{
    if s.len() > 0 && is_space(s.last()) {
        trim_end(s.drop_last())
    } else {
        s
    }
}

/// `s` without the white space at either end.
pub open spec fn trim(s: Seq<char>) -> Seq<char> {
    trim_end(trim_start(s))
}

/// Whether `c` is white space.
pub fn is_space_char(c: char) -> (r: bool)
    ensures
        r == is_space(c),
{
    let u = c as u32;
    (0x09 <= u && u <= 0x0D) || u == 0x20 || u == 0x85 || u == 0xA0 || u == 0x1680 || (0x2000 <= u
        && u <= 0x200A) || u == 0x2028 || u == 0x2029 || u == 0x202F || u == 0x205F || u == 0x3000
}

/// The bounds, within `text[lo..hi]`, of what `trim` keeps of that span.
pub fn trim_range(text: &Vec<char>, lo: usize, hi: usize) -> (r: (usize, usize))
    requires
        lo <= hi <= text@.len(),
    ensures
        lo <= r.0 <= r.1 <= hi,
        text@.subrange(r.0 as int, r.1 as int) == trim(text@.subrange(lo as int, hi as int)),
{
    let mut a: usize = lo;
    while a < hi && is_space_char(text[a])
        invariant
            lo <= a <= hi <= text@.len(),
            trim_start(text@.subrange(lo as int, hi as int)) == trim_start(
                text@.subrange(a as int, hi as int),
            ),
        decreases hi - a,
    {
        assert(text@.subrange(a as int, hi as int).skip(1) == text@.subrange(a + 1, hi as int));
        a += 1;
    }
    assert(trim_start(text@.subrange(lo as int, hi as int)) == text@.subrange(a as int, hi as int));
    let mut b: usize = hi;
    while a < b && is_space_char(text[b - 1])
        invariant
            a <= b <= hi <= text@.len(),
            trim_end(text@.subrange(a as int, hi as int)) == trim_end(
                text@.subrange(a as int, b as int),
            ),
        decreases b - a,
    {
        assert(text@.subrange(a as int, b as int).drop_last() == text@.subrange(a as int, b - 1));
        b -= 1;
    }
    (a, b)
}

/// `s` without the white space at either end.
pub fn trim_str<'a>(s: &'a str) -> (r: &'a str)
    ensures
        r@ == trim(s@),
{
    let chars = to_chars(s);
    let (a, b) = trim_range(&chars, 0, chars.len());
    assert(s@.subrange(0, s@.len() as int) == s@);
    s.substring_char(a, b)
}

/// The decimal digit that stands for `d`.
pub open spec fn digit(d: nat) -> char {
    if d == 0 {
        '0'
    } else if d == 1 {
        '1'
    } else if d == 2 {
        '2'
    } else if d == 3 {
        '3'
    } else if d == 4 {
        '4'
    } else if d == 5 {
        '5'
    } else if d == 6 {
        '6'
    } else if d == 7 {
        '7'
    } else if d == 8 {
        '8'
    } else {
        '9'
    }
}

/// `n` written in decimal, without leading zeros.
pub open spec fn decimal(n: nat) -> Seq<char>
    decreases n,
{
    if n < 10 {
        seq![digit(n)]
    } else {
        decimal(n / 10).push(digit(n % 10))
    }
}

fn digit_str(d: usize) -> (r: &'static str)
    requires
        d < 10,
    ensures
        r@ == seq![digit(d as nat)],
{
    proof {
        reveal_strlit("0");
        reveal_strlit("1");
        reveal_strlit("2");
        reveal_strlit("3");
        reveal_strlit("4");
        reveal_strlit("5");
        reveal_strlit("6");
        reveal_strlit("7");
        reveal_strlit("8");
        reveal_strlit("9");
    }
    let r = if d == 0 {
        "0"
    } else if d == 1 {
        "1"
    } else if d == 2 {
        "2"
    } else if d == 3 {
        "3"
    } else if d == 4 {
        "4"
    } else if d == 5 {
        "5"
    } else if d == 6 {
        "6"
    } else if d == 7 {
        "7"
    } else if d == 8 {
        "8"
    } else {
        "9"
    };
    assert(r@ =~= seq![digit(d as nat)]);
    r
}

/// Appends `n`, written in decimal, to `buf`.
pub fn push_decimal(buf: &mut String, n: usize)
    ensures
        final(buf)@ == old(buf)@ + decimal(n as nat),
    decreases n,
{
    if n >= 10 {
        push_decimal(buf, n / 10);
    }
    buf.append(digit_str(n % 10));
    assert(final(buf)@ =~= old(buf)@ + decimal(n as nat));
}

/// What follows the last `sep` in `s`; all of `s` where it holds none.
pub open spec fn last_segment(s: Seq<char>, sep: char) -> Seq<char>
    decreases s.len(),
{
    if s.len() == 0 {
        s
    } else if s.last() == sep {
        Seq::empty()
    } else {
        last_segment(s.drop_last(), sep).push(s.last())
    }
}

/// The offset in `text` at which its last segment starts.
pub fn last_segment_start(text: &Vec<char>, sep: char) -> (r: usize)
    ensures
        r <= text@.len(),
        text@.skip(r as int) == last_segment(text@, sep),
{
    let n = text.len();
    let mut k: usize = n;
    proof {
        assert(text@.take(n as int) == text@);
        assert(text@ + text@.skip(n as int) =~= text@);
        assert(last_segment(text@, sep) + text@.skip(n as int) =~= last_segment(text@, sep));
    }
    while k > 0 && text[k - 1] != sep
        invariant
            k <= n,
            n == text@.len(),
            last_segment(text@, sep) == last_segment(text@.take(k as int), sep) + text@.skip(
                k as int,
            ),
        decreases k,
    {
        proof {
            let head = text@.take(k as int);
            assert(head.drop_last() == text@.take(k - 1));
            assert(last_segment(head, sep) == last_segment(text@.take(k - 1), sep).push(
                text@[k - 1],
            ));
            assert(last_segment(text@.take(k - 1), sep).push(text@[k - 1]) + text@.skip(k as int)
                =~= last_segment(text@.take(k - 1), sep) + text@.skip(k - 1));
        }
        k -= 1;
    }
    proof {
        assert(last_segment(text@.take(k as int), sep) =~= Seq::<char>::empty());
        assert(Seq::<char>::empty() + text@.skip(k as int) =~= text@.skip(k as int));
    }
    k
}

/// The line feed, as a pattern.
pub open spec fn line_feed() -> Seq<char> {
    seq!['\n']
}

/// The characters of each string.
pub open spec fn views(items: Seq<&str>) -> Seq<Seq<char>> {
    Seq::new(items.len(), |i: int| items[i]@)
}

/// What a line leaves behind: nothing where it is blank, else the line without the white
/// space around it.
pub open spec fn kept_line(line: Seq<char>) -> Seq<Seq<char>> {
    if trim(line).len() == 0 {
        Seq::empty()
    } else {
        seq![trim(line)]
    }
}

/// The lines of `text`, each without the white space around it, blank lines left out.
pub open spec fn kept_lines(text: Seq<char>) -> Seq<Seq<char>>
    decreases text.len(),
    via kept_lines_decreases
{
    match first_index(text, line_feed()) {
        Some(i) => kept_line(text.take(i)) + kept_lines(text.skip(i + 1)),
        None => kept_line(text),
    }
}

#[via_fn]
proof fn kept_lines_decreases(text: Seq<char>) {
    lemma_first_index(text, line_feed());
}

/// The items one after the other, with `sep` between each two.
pub open spec fn joined(items: Seq<Seq<char>>, sep: Seq<char>) -> Seq<char>
    decreases items.len(),
{
    if items.len() == 0 {
        Seq::empty()
    } else if items.len() == 1 {
        items[0]
    } else {
        joined(items.drop_last(), sep) + sep + items.last()
    }
}

/// Appends to `out` what the line `text[lo..hi]` leaves behind.
fn push_kept_line<'a>(
    out: &mut Vec<&'a str>,
    text: &'a str,
    chars: &Vec<char>,
    lo: usize,
    hi: usize,
)
    requires
        chars@ == text@,
        lo <= hi <= chars@.len(),
    ensures
        views(final(out)@) == views(old(out)@) + kept_line(text@.subrange(lo as int, hi as int)),
{
    let (a, b) = trim_range(chars, lo, hi);
    if a < b {
        out.push(text.substring_char(a, b));
    }
    assert(views(final(out)@) =~= views(old(out)@) + kept_line(
        text@.subrange(lo as int, hi as int),
    ));
}

/// Appends to `out` the lines of `text`, each without the white space around it, blank
/// lines left out.
pub fn push_kept_lines<'a>(out: &mut Vec<&'a str>, text: &'a str)
    ensures
        views(final(out)@) == views(old(out)@) + kept_lines(text@),
{
    let chars = to_chars(text);
    let feed: Vec<char> = vec!['\n'];
    assert(feed@ =~= line_feed());
    let n = chars.len();
    let mut start: usize = 0;
    assert(text@.skip(0) == text@);
    loop
        invariant
            chars@ == text@,
            feed@ == line_feed(),
            n == chars@.len(),
            start <= n,
            views(old(out)@) + kept_lines(text@) == views(out@) + kept_lines(
                text@.skip(start as int),
            ),
        decreases n - start,
    {
        let ghost rest = text@.skip(start as int);
        let ghost before = views(out@);
        match find_from(&chars, &feed, start) {
            Some(p) => {
                proof {
                    lemma_first_index(rest, line_feed());
                    assert(rest.take(p - start) == text@.subrange(start as int, p as int));
                    assert(rest.skip(p - start + 1) == text@.skip(p + 1));
                }
                push_kept_line(out, text, &chars, start, p);
                assert(before + (kept_line(rest.take(p - start)) + kept_lines(
                    rest.skip(p - start + 1),
                )) =~= views(out@) + kept_lines(text@.skip(p + 1)));
                start = p + 1;
            },
            None => {
                proof {
                    assert(rest == text@.subrange(start as int, n as int));
                }
                push_kept_line(out, text, &chars, start, n);
                return ;
            },
        }
    }
}

/// The items one after the other, with `sep` between each two.
pub fn join(items: &Vec<&str>, sep: &str) -> (r: String)
    ensures
        r@ == joined(views(items@), sep@),
{
    let ghost all = views(items@);
    let mut buf = String::new();
    let mut i: usize = 0;
    assert(all.take(0) =~= Seq::empty());
    while i < items.len()
        invariant
            i <= items@.len(),
            all == views(items@),
            buf@ == joined(all.take(i as int), sep@),
        decreases items@.len() - i,
    {
        if i > 0 {
            buf.append(sep);
        }
        buf.append(items[i]);
        proof {
            let head = all.take(i + 1);
            assert(head.drop_last() == all.take(i as int));
            assert(head.last() == items@[i as int]@);
            assert(buf@ =~= joined(head, sep@));
        }
        i += 1;
    }
    assert(all.take(i as int) == all);
    buf
}

} // verus!
