use vstd::prelude::*;

verus! {

/// Whether `c` has the Unicode White_Space property, as `char::is_whitespace` reads it.
pub open spec fn is_whitespace(c: char) -> bool {
    let u = c as u32;
    ||| 0x09 <= u <= 0x0D
    ||| u == 0x20
    ||| u == 0x85
    ||| u == 0xA0
    ||| u == 0x1680
    ||| 0x2000 <= u <= 0x200A
    ||| u == 0x2028
    ||| u == 0x2029
    ||| u == 0x202F
    ||| u == 0x205F
    ||| u == 0x3000
}

/// The maximal runs of non-whitespace characters of `s` from position `i` on,
/// where `cur` is the run already begun before `i`.
pub open spec fn words_from(s: Seq<char>, i: int, cur: Seq<char>) -> Seq<Seq<char>>
    decreases s.len() - i,
{
    if i >= s.len() {
        if cur.len() > 0 {
            seq![cur]
        } else {
            seq![]
        }
    } else if is_whitespace(s[i]) {
        (if cur.len() > 0 {
            seq![cur]
        } else {
            seq![]
        }) + words_from(s, i + 1, seq![])
    } else {
        words_from(s, i + 1, cur.push(s[i]))
    }
}

/// The whitespace-separated words of `s`, in order.
pub open spec fn words(s: Seq<char>) -> Seq<Seq<char>> {
    words_from(s, 0, seq![])
}

/// The first position at or after `i` where `c` stands in `s`.
pub open spec fn find_from(s: Seq<char>, c: char, i: int) -> Option<int>
    decreases s.len() - i,
{
    if i < 0 || i >= s.len() {
        None
    } else if s[i] == c {
        Some(i)
    } else {
        find_from(s, c, i + 1)
    }
}

/// A position that `find_from` returns holds `c`, at or after the start.
pub proof fn lemma_find_from(s: Seq<char>, c: char, i: int)
    ensures
        find_from(s, c, i) matches Some(j) ==> i <= j < s.len() && s[j] == c,
    decreases s.len() - i,
{
    if 0 <= i < s.len() && s[i] != c {
        lemma_find_from(s, c, i + 1);
    }
}

/// The pieces of `s` from `start` on between occurrences of `c`, as
/// `str::split` gives them.
pub open spec fn split_from(s: Seq<char>, c: char, start: int) -> Seq<Seq<char>>
    decreases s.len() - start,
    when 0 <= start <= s.len()
{
    match find_from(s, c, start) {
        None => seq![s.subrange(start, s.len() as int)],
        Some(j) => {
            proof {
                lemma_find_from(s, c, start);
            }
            seq![s.subrange(start, j)] + split_from(s, c, j + 1)
        },
    }
}

/// The pieces of `s` between occurrences of `c`.
pub open spec fn split(s: Seq<char>, c: char) -> Seq<Seq<char>> {
    split_from(s, c, 0)
}

/// `s` cut at the first occurrence of `c`, as `str::splitn(2, c)` gives it:
/// the part before, and the part after if `c` occurs.
pub open spec fn split_once(s: Seq<char>, c: char) -> (Seq<char>, Option<Seq<char>>) {
    match find_from(s, c, 0) {
        None => (s, None),
        Some(j) => (s.subrange(0, j), Some(s.subrange(j + 1, s.len() as int))),
    }
}

/// The views of a vector of character vectors.
pub open spec fn views(v: Seq<Vec<char>>) -> Seq<Seq<char>> {
    v.map_values(|w: Vec<char>| w@)
}

/// The characters of `s`, in order.
pub fn to_chars(s: &str) -> (r: Vec<char>)
    ensures
        r@ == s@,
{
    let n = s.unicode_len();
    let mut r: Vec<char> = Vec::new();
    let mut i: usize = 0;
    while i < n
        invariant
            n == s@.len(),
            i <= n,
            r@ == s@.subrange(0, i as int),
        decreases n - i,
    {
        let c = s.get_char(i);
        r.push(c);
        i = i + 1;
        assert(r@ =~= s@.subrange(0, i as int));
    }
    assert(r@ =~= s@);
    r
}

/// Whether `c` is whitespace.
pub fn is_whitespace_char(c: char) -> (r: bool)
    ensures
        r == is_whitespace(c),
{
    let u = c as u32;
    (0x09 <= u && u <= 0x0D) || u == 0x20 || u == 0x85 || u == 0xA0 || u == 0x1680 || (0x2000
        <= u && u <= 0x200A) || u == 0x2028 || u == 0x2029 || u == 0x202F || u == 0x205F || u
        == 0x3000
}

/// The whitespace-separated words of `s`.
pub fn split_words(s: &Vec<char>) -> (r: Vec<Vec<char>>)
    ensures
        views(r@) == words(s@),
{
    let mut out: Vec<Vec<char>> = Vec::new();
    let mut cur: Vec<char> = Vec::new();
    let mut i: usize = 0;
    while i < s.len()
        invariant
            i <= s@.len(),
            views(out@) + words_from(s@, i as int, cur@) == words(s@),
        decreases s@.len() - i,
    {
        let c = s[i];
        if is_whitespace_char(c) {
            if cur.len() > 0 {
                proof {
                    assert(views(out@.push(cur)) =~= views(out@) + seq![cur@]);
                    assert(views(out@) + words_from(s@, i as int, cur@) =~= views(out@.push(cur))
                        + words_from(s@, i + 1, seq![]));
                }
                out.push(cur);
                cur = Vec::new();
                assert(cur@ =~= seq![]);
            } else {
                assert(cur@ =~= seq![]);
                assert(words_from(s@, i as int, cur@) =~= words_from(s@, i + 1, seq![]));
            }
        } else {
            cur.push(c);
        }
        i = i + 1;
    }
    if cur.len() > 0 {
        proof {
            assert(views(out@.push(cur)) =~= views(out@) + seq![cur@]);
        }
        out.push(cur);
    } else {
        assert(views(out@) + words_from(s@, i as int, cur@) =~= views(out@));
    }
    out
}

/// The first position at or after `start` where `c` stands in `s`.
pub fn find_char(s: &Vec<char>, c: char, start: usize) -> (r: Option<usize>)
    ensures
        r matches Some(j) ==> find_from(s@, c, start as int) == Some(j as int),
        r is None ==> find_from(s@, c, start as int) is None,
{
    let mut i: usize = start;
    if i >= s.len() {
        return None;
    }
    while i < s.len()
        invariant
            start <= i <= s@.len(),
            find_from(s@, c, i as int) == find_from(s@, c, start as int),
        decreases s@.len() - i,
    {
        if s[i] == c {
            return Some(i);
        }
        i = i + 1;
    }
    None
}

/// The characters of `s` from `a` up to `b`.
pub fn copy_range(s: &Vec<char>, a: usize, b: usize) -> (r: Vec<char>)
    requires
        a <= b <= s@.len(),
    ensures
        r@ == s@.subrange(a as int, b as int),
{
    let mut r: Vec<char> = Vec::new();
    let mut i: usize = a;
    while i < b
        invariant
            a <= i <= b,
            b <= s@.len(),
            r@ == s@.subrange(a as int, i as int),
        decreases b - i,
    {
        r.push(s[i]);
        i = i + 1;
        assert(r@ =~= s@.subrange(a as int, i as int));
    }
    r
}

/// The pieces of `s` between occurrences of `c`.
pub fn split_all(s: &Vec<char>, c: char) -> (r: Vec<Vec<char>>)
    ensures
        views(r@) == split(s@, c),
{
    let mut out: Vec<Vec<char>> = Vec::new();
    let mut start: usize = 0;
    loop
        invariant
            start <= s@.len(),
            views(out@) + split_from(s@, c, start as int) == split(s@, c),
        decreases s@.len() - start,
    {
        match find_char(s, c, start) {
            None => {
                let piece = copy_range(s, start, s.len());
                proof {
                    assert(views(out@.push(piece)) =~= views(out@) + seq![piece@]);
                }
                out.push(piece);
                return out;
            },
            Some(j) => {
                proof {
                    lemma_find_from(s@, c, start as int);
                    assert(find_from(s@, c, start as int) == Some(j as int));
                    assert(j < s@.len());
                }
                let n = s.len();
                assert(j < n);
                let piece = copy_range(s, start, j);
                proof {
                    assert(views(out@.push(piece)) =~= views(out@) + seq![piece@]);
                    assert(views(out@) + split_from(s@, c, start as int) =~= views(out@.push(piece))
                        + split_from(s@, c, j + 1));
                }
                out.push(piece);
                start = j + 1;
            },
        }
    }
}

/// `s` cut at the first occurrence of `c`.
pub fn cut_once(s: &Vec<char>, c: char) -> (r: (Vec<char>, Option<Vec<char>>))
    ensures
        r.0@ == split_once(s@, c).0,
        r.1 is Some == split_once(s@, c).1 is Some,
        r.1 matches Some(t) ==> split_once(s@, c).1 == Some(t@),
{
    match find_char(s, c, 0) {
        None => {
            let head = copy_range(s, 0, s.len());
            assert(head@ =~= s@);
            (head, None)
        },
        Some(j) => {
            proof {
                lemma_find_from(s@, c, 0);
                assert(find_from(s@, c, 0) == Some(j as int));
                assert(j < s@.len());
            }
            let n = s.len();
            assert(j < n);
            (copy_range(s, 0, j), Some(copy_range(s, j + 1, s.len())))
        },
    }
}

} // verus!
